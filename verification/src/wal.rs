//! Write-ahead log.
//!
//! The WAL is a single append-only file (`wal.log`) holding a sequence of
//! 4096-byte blocks. Each block carries exactly one [`Record`] in its
//! payload; the block's LSN is the record's LSN.
//!
//! # Commit protocol
//!
//! Durability follows a strict ordering:
//!
//! 1. Data blocks are written to the segment file.
//! 2. The segment file is fsynced.
//! 3. The [`Record::Commit`] record is appended to the WAL.
//! 4. The WAL is fsynced.
//!
//! A `Put` only becomes visible after a `Commit` with `lsn >= put_lsn` is
//! durable. If the crash lands between steps 2 and 4 the commit record never
//! reaches disk, so on recovery the put is discarded and the segment tail it
//! wrote is truncated away.
//!
//! # Recovery
//!
//! [`Wal::replay`] reads blocks sequentially and stops at the first torn
//! block (short read) or CRC failure; it never skips past corruption. Records
//! after the last durable `Commit` are discarded, and the recovered
//! high-water LSN is the maximum of the committed LSN and the last valid
//! block LSN. Recovery cuts the file, so before it does, that LSN is kept as
//! a mark in a file of its own (`wal.mark`), and LSNs are never reused across
//! recovery.

use vstd::bytes::*;
use vstd::prelude::*;
use vstd::string::*;
use vstd::utf8::*;

use crate::block;
use crate::block::{block_bytes, block_of, lemma_decode_encode, BLOCK_SIZE, PAYLOAD_MAX};
use crate::error::{ErrorModel, StoreError};
use crate::rollup::{AggDeltaEntry, DeltaModel};
use crate::text::{decimal, digits};

verus! {

pub type Lsn = u64;

pub const WAL_FILE: &'static str = "wal.log";

/// The file that keeps the mark of the last recovery.
pub const MARK_FILE: &'static str = "wal.mark";

/// The contents of the mark's file.
pub fn mark_bytes(mark: Lsn) -> (bytes: Vec<u8>)
    ensures
        bytes@ == spec_u64_to_le_bytes(mark),
{
    u64_to_le_bytes(mark)
}

/// The mark that a file holds; zero where there is no file.
pub fn read_mark(file: Option<&[u8]>) -> (mark: Result<Lsn, StoreError>)
    ensures
        match file {
            None => mark == Ok::<Lsn, StoreError>(0),
            Some(bytes) => if bytes@.len() == 8 {
                mark == Ok::<Lsn, StoreError>(spec_u64_from_le_bytes(bytes@))
            } else {
                mark matches Err(e) && e@ == ErrorModel::Corrupt("LSN mark of the wrong length"@)
            },
        },
{
    match file {
        None => Ok(0),
        Some(bytes) => if bytes.len() == 8 {
            Ok(u64_from_le_bytes(bytes))
        } else {
            Err(corrupt("LSN mark of the wrong length"))
        },
    }
}

/// A mark is read back as it was kept.
pub proof fn lemma_mark_reads_back(mark: Lsn)
    ensures
        spec_u64_to_le_bytes(mark).len() == 8,
        spec_u64_from_le_bytes(spec_u64_to_le_bytes(mark)) == mark,
{
    lemma_auto_spec_u64_to_from_le_bytes();
}

const TAG_PUT: u8 = 0;

const TAG_COMMIT: u8 = 1;

const TAG_SEAL: u8 = 2;

const TAG_AGG: u8 = 3;

const TAG_SWAP: u8 = 4;

const TAG_REMAP: u8 = 5;

#[derive(Debug, Clone, PartialEq, Eq)]
pub struct RemapEntry {
    pub key: String,
    pub lsn: u64,
    pub offset: u64,
    pub len: u32,
}

#[derive(Debug, Clone, PartialEq, Eq)]
pub enum Record {
    Put { key: String, len: u32, stripe_id: u64 },
    Commit { lsn: u64 },
    SegmentSeal { segment_id: u64, next_segment_id: u64 },
    AggDelta { deltas: Vec<AggDeltaEntry> },
    SegmentSwap { old_segment_id: u64, new_segment_id: u64 },
    SegmentRemap { new_segment_id: u64, entries: Vec<RemapEntry> },
}

/// What a [`RemapEntry`] says.
#[verifier::ext_equal]
pub ghost struct EntryModel {
    pub key: Seq<char>,
    pub lsn: u64,
    pub offset: u64,
    pub len: u32,
}

/// What a [`Record`] says.
#[verifier::ext_equal]
pub ghost enum RecordModel {
    Put { key: Seq<char>, len: u32, stripe_id: u64 },
    Commit { lsn: u64 },
    SegmentSeal { segment_id: u64, next_segment_id: u64 },
    AggDelta { deltas: Seq<DeltaModel> },
    SegmentSwap { old_segment_id: u64, new_segment_id: u64 },
    SegmentRemap { new_segment_id: u64, entries: Seq<EntryModel> },
}

impl View for RemapEntry {
    type V = EntryModel;

    open spec fn view(&self) -> EntryModel {
        EntryModel { key: self.key@, lsn: self.lsn, offset: self.offset, len: self.len }
    }
}

pub open spec fn delta_models(deltas: Seq<AggDeltaEntry>) -> Seq<DeltaModel> {
    deltas.map_values(|d: AggDeltaEntry| d@)
}

pub open spec fn entry_models(entries: Seq<RemapEntry>) -> Seq<EntryModel> {
    entries.map_values(|e: RemapEntry| e@)
}

impl View for Record {
    type V = RecordModel;

    open spec fn view(&self) -> RecordModel {
        match self {
            Record::Put { key, len, stripe_id } => RecordModel::Put {
                key: key@,
                len: *len,
                stripe_id: *stripe_id,
            },
            Record::Commit { lsn } => RecordModel::Commit { lsn: *lsn },
            Record::SegmentSeal { segment_id, next_segment_id } => RecordModel::SegmentSeal {
                segment_id: *segment_id,
                next_segment_id: *next_segment_id,
            },
            Record::AggDelta { deltas } => RecordModel::AggDelta { deltas: delta_models(deltas@) },
            Record::SegmentSwap { old_segment_id, new_segment_id } => RecordModel::SegmentSwap {
                old_segment_id: *old_segment_id,
                new_segment_id: *new_segment_id,
            },
            Record::SegmentRemap { new_segment_id, entries } => RecordModel::SegmentRemap {
                new_segment_id: *new_segment_id,
                entries: entry_models(entries@),
            },
        }
    }
}

impl Record {
    /// The same record once more.
    pub fn copy(&self) -> (rec: Record)
        ensures
            rec@ == self@,
    {
        match self {
            Record::Put { key, len, stripe_id } => Record::Put {
                key: key.clone(),
                len: *len,
                stripe_id: *stripe_id,
            },
            Record::Commit { lsn } => Record::Commit { lsn: *lsn },
            Record::SegmentSeal { segment_id, next_segment_id } => Record::SegmentSeal {
                segment_id: *segment_id,
                next_segment_id: *next_segment_id,
            },
            Record::AggDelta { deltas } => {
                let mut copied: Vec<AggDeltaEntry> = Vec::new();
                for i in 0..deltas.len()
                    invariant
                        delta_models(copied@) == delta_models(deltas@).take(i as int),
                {
                    let d: &AggDeltaEntry = &deltas[i];
                    let ghost before = copied@;
                    copied.push(
                        AggDeltaEntry {
                            prefix: d.prefix.clone(),
                            object_count_delta: d.object_count_delta,
                            byte_count_delta: d.byte_count_delta,
                        },
                    );
                    assert(delta_models(copied@) =~= delta_models(before).push(d@));
                    assert(delta_models(deltas@).take(i + 1) =~= delta_models(deltas@).take(
                        i as int,
                    ).push(d@));
                }
                assert(delta_models(copied@) =~= delta_models(deltas@));
                Record::AggDelta { deltas: copied }
            },
            Record::SegmentSwap { old_segment_id, new_segment_id } => Record::SegmentSwap {
                old_segment_id: *old_segment_id,
                new_segment_id: *new_segment_id,
            },
            Record::SegmentRemap { new_segment_id, entries } => {
                let mut copied: Vec<RemapEntry> = Vec::new();
                for i in 0..entries.len()
                    invariant
                        entry_models(copied@) == entry_models(entries@).take(i as int),
                {
                    let e: &RemapEntry = &entries[i];
                    let ghost before = copied@;
                    copied.push(e.copy());
                    assert(entry_models(copied@) =~= entry_models(before).push(e@));
                    assert(entry_models(entries@).take(i + 1) =~= entry_models(entries@).take(
                        i as int,
                    ).push(e@));
                }
                assert(entry_models(copied@) =~= entry_models(entries@));
                Record::SegmentRemap { new_segment_id: *new_segment_id, entries: copied }
            },
        }
    }
}

impl RemapEntry {
    /// The same entry once more.
    pub fn copy(&self) -> (e: RemapEntry)
        ensures
            e@ == self@,
    {
        RemapEntry { key: self.key.clone(), lsn: self.lsn, offset: self.offset, len: self.len }
    }
}

/// The first byte of an encoded record.
pub open spec fn tag_of(rec: RecordModel) -> u8 {
    match rec {
        RecordModel::Put { .. } => 0,
        RecordModel::Commit { .. } => 1,
        RecordModel::SegmentSeal { .. } => 2,
        RecordModel::AggDelta { .. } => 3,
        RecordModel::SegmentSwap { .. } => 4,
        RecordModel::SegmentRemap { .. } => 5,
    }
}

/// Text with its length in bytes in front.
pub open spec fn text_bytes(s: Seq<char>) -> Seq<u8> {
    spec_u16_to_le_bytes(encode_utf8(s).len() as u16) + encode_utf8(s)
}

pub open spec fn delta_bytes(d: DeltaModel) -> Seq<u8> {
    text_bytes(d.prefix) + spec_u64_to_le_bytes(d.object_count_delta) + spec_u64_to_le_bytes(
        d.byte_count_delta,
    )
}

pub open spec fn deltas_bytes(ds: Seq<DeltaModel>) -> Seq<u8>
    decreases ds.len(),
{
    if ds.len() == 0 {
        Seq::empty()
    } else {
        deltas_bytes(ds.drop_last()) + delta_bytes(ds.last())
    }
}

pub open spec fn entry_bytes(e: EntryModel) -> Seq<u8> {
    text_bytes(e.key) + spec_u64_to_le_bytes(e.lsn) + spec_u64_to_le_bytes(e.offset)
        + spec_u32_to_le_bytes(e.len)
}

pub open spec fn entries_bytes(es: Seq<EntryModel>) -> Seq<u8>
    decreases es.len(),
{
    if es.len() == 0 {
        Seq::empty()
    } else {
        entries_bytes(es.drop_last()) + entry_bytes(es.last())
    }
}

/// The payload that stands for a record.
pub open spec fn record_bytes(rec: RecordModel) -> Seq<u8> {
    seq![tag_of(rec)] + match rec {
        RecordModel::Put { key, len, stripe_id } => spec_u64_to_le_bytes(stripe_id)
            + spec_u32_to_le_bytes(len) + text_bytes(key),
        RecordModel::Commit { lsn } => spec_u64_to_le_bytes(lsn),
        RecordModel::SegmentSeal { segment_id, next_segment_id } => spec_u64_to_le_bytes(segment_id)
            + spec_u64_to_le_bytes(next_segment_id),
        RecordModel::AggDelta { deltas } => spec_u16_to_le_bytes(deltas.len() as u16)
            + deltas_bytes(deltas),
        RecordModel::SegmentSwap { old_segment_id, new_segment_id } => spec_u64_to_le_bytes(
            old_segment_id,
        ) + spec_u64_to_le_bytes(new_segment_id),
        RecordModel::SegmentRemap { new_segment_id, entries } => spec_u64_to_le_bytes(
            new_segment_id,
        ) + spec_u16_to_le_bytes(entries.len() as u16) + entries_bytes(entries),
    }
}

/// The record fits in one block.
pub open spec fn encodable(rec: RecordModel) -> bool {
    record_bytes(rec).len() <= PAYLOAD_MAX
}

pub(crate) proof fn lemma_le_lengths()
    ensures
        forall|x: u64| #[trigger] spec_u64_to_le_bytes(x).len() == 8,
        forall|x: u32| #[trigger] spec_u32_to_le_bytes(x).len() == 4,
        forall|x: u16| #[trigger] spec_u16_to_le_bytes(x).len() == 2,
        forall|x: u64| spec_u64_from_le_bytes(#[trigger] spec_u64_to_le_bytes(x)) == x,
        forall|x: u32| spec_u32_from_le_bytes(#[trigger] spec_u32_to_le_bytes(x)) == x,
        forall|x: u16| spec_u16_from_le_bytes(#[trigger] spec_u16_to_le_bytes(x)) == x,
{
    lemma_auto_spec_u64_to_from_le_bytes();
    lemma_auto_spec_u32_to_from_le_bytes();
    lemma_auto_spec_u16_to_from_le_bytes();
    assert forall|x: u32| spec_u32_from_le_bytes(#[trigger] spec_u32_to_le_bytes(x)) == x by {
        assert(spec_u32_to_le_bytes(x).len() == 4);
    }
    assert forall|x: u16| spec_u16_from_le_bytes(#[trigger] spec_u16_to_le_bytes(x)) == x by {
        assert(spec_u16_to_le_bytes(x).len() == 2);
    }
}

pub fn corrupt(msg: &str) -> (e: StoreError)
    ensures
        e@ == ErrorModel::Corrupt(msg@),
{
    StoreError::Corrupt(msg.to_string())
}

/// Appends text with its length in front, or says that it is too long.
fn push_text(v: &mut Vec<u8>, s: &str) -> (ok: bool)
    ensures
        ok <==> encode_utf8(s@).len() <= u16::MAX,
        ok ==> final(v)@ == old(v)@ + text_bytes(s@),
{
    let bytes = s.as_bytes();
    if bytes.len() > u16::MAX as usize {
        return false;
    }
    v.extend_from_slice(u16_to_le_bytes(bytes.len() as u16).as_slice());
    v.extend_from_slice(bytes);
    assert(v@ =~= old(v)@ + text_bytes(s@));
    true
}

proof fn lemma_deltas_len(ds: Seq<DeltaModel>, i: int)
    requires
        0 <= i <= ds.len(),
    ensures
        deltas_bytes(ds).len() >= deltas_bytes(ds.take(i)).len() + 18 * (ds.len() - i),
        i < ds.len() ==> deltas_bytes(ds).len() >= encode_utf8(ds[i].prefix).len(),
        deltas_bytes(ds).len() >= 18 * ds.len(),
    decreases ds.len(),
{
    lemma_le_lengths();
    if i == ds.len() {
        assert(ds.take(i) =~= ds);
        if ds.len() > 0 {
            lemma_deltas_len(ds.drop_last(), i - 1);
        }
    } else {
        assert(ds.drop_last().take(i) =~= ds.take(i));
        lemma_deltas_len(ds.drop_last(), i);
    }
}

proof fn lemma_entries_len(es: Seq<EntryModel>, i: int)
    requires
        0 <= i <= es.len(),
    ensures
        entries_bytes(es).len() >= entries_bytes(es.take(i)).len() + 22 * (es.len() - i),
        i < es.len() ==> entries_bytes(es).len() >= encode_utf8(es[i].key).len(),
        entries_bytes(es).len() >= 22 * es.len(),
    decreases es.len(),
{
    lemma_le_lengths();
    if i == es.len() {
        assert(es.take(i) =~= es);
        if es.len() > 0 {
            lemma_entries_len(es.drop_last(), i - 1);
        }
    } else {
        assert(es.drop_last().take(i) =~= es.take(i));
        lemma_entries_len(es.drop_last(), i);
    }
}

/// The payload that stands for `rec`.
pub fn encode_record(rec: &Record) -> (res: Result<Vec<u8>, StoreError>)
    ensures
        match res {
            Ok(v) => encodable(rec@) && v@ == record_bytes(rec@),
            Err(e) => !encodable(rec@) && e@ == ErrorModel::RecordTooLarge,
        },
{
    let mut v: Vec<u8> = Vec::new();
    proof {
        lemma_le_lengths();
    }
    match rec {
        Record::Put { key, len, stripe_id } => {
            v.push(TAG_PUT);
            v.extend_from_slice(u64_to_le_bytes(*stripe_id).as_slice());
            v.extend_from_slice(u32_to_le_bytes(*len).as_slice());
            if !push_text(&mut v, key.as_str()) {
                return Err(StoreError::RecordTooLarge);
            }
        },
        Record::Commit { lsn } => {
            v.push(TAG_COMMIT);
            v.extend_from_slice(u64_to_le_bytes(*lsn).as_slice());
        },
        Record::SegmentSeal { segment_id, next_segment_id } => {
            v.push(TAG_SEAL);
            v.extend_from_slice(u64_to_le_bytes(*segment_id).as_slice());
            v.extend_from_slice(u64_to_le_bytes(*next_segment_id).as_slice());
        },
        Record::AggDelta { deltas } => {
            let ghost ds = delta_models(deltas@);
            if deltas.len() > u16::MAX as usize {
                proof {
                    lemma_deltas_len(ds, 0);
                }
                return Err(StoreError::RecordTooLarge);
            }
            v.push(TAG_AGG);
            v.extend_from_slice(u16_to_le_bytes(deltas.len() as u16).as_slice());
            let ghost start = v@;
            for i in 0..deltas.len()
                invariant
                    ds == delta_models(deltas@),
                    rec@ == (RecordModel::AggDelta { deltas: ds }),
                    forall|x: u64| #[trigger] spec_u64_to_le_bytes(x).len() == 8,
                    v@ == start + deltas_bytes(ds.take(i as int)),
            {
                let d = &deltas[i];
                assert(ds[i as int] == d@);
                if !push_text(&mut v, d.prefix.as_str()) {
                    proof {
                        lemma_deltas_len(ds, i as int);
                    }
                    return Err(StoreError::RecordTooLarge);
                }
                v.extend_from_slice(u64_to_le_bytes(d.object_count_delta).as_slice());
                v.extend_from_slice(u64_to_le_bytes(d.byte_count_delta).as_slice());
                proof {
                    assert(ds.take(i + 1).drop_last() =~= ds.take(i as int));
                    assert(v@ =~= start + deltas_bytes(ds.take(i + 1)));
                }
            }
            assert(ds.take(ds.len() as int) =~= ds);
        },
        Record::SegmentSwap { old_segment_id, new_segment_id } => {
            v.push(TAG_SWAP);
            v.extend_from_slice(u64_to_le_bytes(*old_segment_id).as_slice());
            v.extend_from_slice(u64_to_le_bytes(*new_segment_id).as_slice());
        },
        Record::SegmentRemap { new_segment_id, entries } => {
            let ghost es = entry_models(entries@);
            if entries.len() > u16::MAX as usize {
                proof {
                    lemma_entries_len(es, 0);
                }
                return Err(StoreError::RecordTooLarge);
            }
            v.push(TAG_REMAP);
            v.extend_from_slice(u64_to_le_bytes(*new_segment_id).as_slice());
            v.extend_from_slice(u16_to_le_bytes(entries.len() as u16).as_slice());
            let ghost start = v@;
            for i in 0..entries.len()
                invariant
                    es == entry_models(entries@),
                    rec@ == (RecordModel::SegmentRemap {
                        new_segment_id: *new_segment_id,
                        entries: es,
                    }),
                    v@ == start + entries_bytes(es.take(i as int)),
            {
                let e = &entries[i];
                assert(es[i as int] == e@);
                if !push_text(&mut v, e.key.as_str()) {
                    proof {
                        lemma_entries_len(es, i as int);
                    }
                    return Err(StoreError::RecordTooLarge);
                }
                v.extend_from_slice(u64_to_le_bytes(e.lsn).as_slice());
                v.extend_from_slice(u64_to_le_bytes(e.offset).as_slice());
                v.extend_from_slice(u32_to_le_bytes(e.len).as_slice());
                proof {
                    assert(es.take(i + 1).drop_last() =~= es.take(i as int));
                    assert(v@ =~= start + entries_bytes(es.take(i + 1)));
                }
            }
            assert(es.take(es.len() as int) =~= es);
        },
    }
    assert(v@ =~= record_bytes(rec@));
    if v.len() > PAYLOAD_MAX {
        return Err(StoreError::RecordTooLarge);
    }
    Ok(v)
}

/// Records without text always fit in a block.
pub proof fn lemma_fixed_encodable(rec: RecordModel)
    requires
        rec is Commit || rec is SegmentSeal || rec is SegmentSwap,
    ensures
        encodable(rec),
{
    lemma_le_lengths();
}

/// A value read from the front of some bytes, with the bytes after it, or the
/// error that reading ended in.
pub type Parsed<T> = Result<(T, Seq<u8>), ErrorModel>;

/// The first `n` bytes of `p`.
pub open spec fn parse_bytes(p: Seq<u8>, n: nat) -> Parsed<Seq<u8>> {
    if p.len() < n {
        Err(ErrorModel::Corrupt("truncated record"@))
    } else {
        Ok((p.take(n as int), p.skip(n as int)))
    }
}

pub open spec fn parse_u64(p: Seq<u8>) -> Parsed<u64> {
    match parse_bytes(p, 8) {
        Ok((b, rest)) => Ok((spec_u64_from_le_bytes(b), rest)),
        Err(e) => Err(e),
    }
}

pub open spec fn parse_u32(p: Seq<u8>) -> Parsed<u32> {
    match parse_bytes(p, 4) {
        Ok((b, rest)) => Ok((spec_u32_from_le_bytes(b), rest)),
        Err(e) => Err(e),
    }
}

pub open spec fn parse_u16(p: Seq<u8>) -> Parsed<u16> {
    match parse_bytes(p, 2) {
        Ok((b, rest)) => Ok((spec_u16_from_le_bytes(b), rest)),
        Err(e) => Err(e),
    }
}

/// `n` bytes of text; `what` names the text in the error.
pub open spec fn parse_utf8(p: Seq<u8>, n: nat, what: Seq<char>) -> Parsed<Seq<char>> {
    match parse_bytes(p, n) {
        Ok((b, rest)) => if valid_utf8(b) {
            Ok((decode_utf8(b), rest))
        } else {
            Err(ErrorModel::Corrupt("invalid utf-8 in "@ + what))
        },
        Err(e) => Err(e),
    }
}

/// Text with its length in front.
pub open spec fn parse_text(p: Seq<u8>, what: Seq<char>) -> Parsed<Seq<char>> {
    match parse_u16(p) {
        Ok((n, rest)) => parse_utf8(rest, n as nat, what),
        Err(e) => Err(e),
    }
}

pub open spec fn parse_delta(p: Seq<u8>) -> Parsed<DeltaModel> {
    match parse_text(p, "prefix"@) {
        Ok((prefix, p1)) => match parse_u64(p1) {
            Ok((object_count_delta, p2)) => match parse_u64(p2) {
                Ok((byte_count_delta, p3)) => Ok(
                    (DeltaModel { prefix, object_count_delta, byte_count_delta }, p3),
                ),
                Err(e) => Err(e),
            },
            Err(e) => Err(e),
        },
        Err(e) => Err(e),
    }
}

pub open spec fn parse_deltas(p: Seq<u8>, n: nat) -> Parsed<Seq<DeltaModel>>
    decreases n,
{
    if n == 0 {
        Ok((Seq::empty(), p))
    } else {
        match parse_delta(p) {
            Ok((d, rest)) => match parse_deltas(rest, (n - 1) as nat) {
                Ok((ds, end)) => Ok((seq![d] + ds, end)),
                Err(e) => Err(e),
            },
            Err(e) => Err(e),
        }
    }
}

pub open spec fn parse_entry(p: Seq<u8>) -> Parsed<EntryModel> {
    match parse_text(p, "key"@) {
        Ok((key, p1)) => match parse_u64(p1) {
            Ok((lsn, p2)) => match parse_u64(p2) {
                Ok((offset, p3)) => match parse_u32(p3) {
                    Ok((len, p4)) => Ok((EntryModel { key, lsn, offset, len }, p4)),
                    Err(e) => Err(e),
                },
                Err(e) => Err(e),
            },
            Err(e) => Err(e),
        },
        Err(e) => Err(e),
    }
}

pub open spec fn parse_entries(p: Seq<u8>, n: nat) -> Parsed<Seq<EntryModel>>
    decreases n,
{
    if n == 0 {
        Ok((Seq::empty(), p))
    } else {
        match parse_entry(p) {
            Ok((e, rest)) => match parse_entries(rest, (n - 1) as nat) {
                Ok((es, end)) => Ok((seq![e] + es, end)),
                Err(err) => Err(err),
            },
            Err(err) => Err(err),
        }
    }
}

/// Two 64-bit numbers.
pub open spec fn parse_pair(p: Seq<u8>) -> Parsed<(u64, u64)> {
    match parse_u64(p) {
        Ok((a, p1)) => match parse_u64(p1) {
            Ok((b, p2)) => Ok(((a, b), p2)),
            Err(e) => Err(e),
        },
        Err(e) => Err(e),
    }
}

/// The record after the tag byte.
pub open spec fn parse_body(tag: u8, p: Seq<u8>) -> Parsed<RecordModel> {
    if tag == 0 {
        match parse_u64(p) {
            Ok((stripe_id, p1)) => match parse_u32(p1) {
                Ok((len, p2)) => match parse_text(p2, "key"@) {
                    Ok((key, p3)) => Ok((RecordModel::Put { key, len, stripe_id }, p3)),
                    Err(e) => Err(e),
                },
                Err(e) => Err(e),
            },
            Err(e) => Err(e),
        }
    } else if tag == 1 {
        match parse_u64(p) {
            Ok((lsn, p1)) => Ok((RecordModel::Commit { lsn }, p1)),
            Err(e) => Err(e),
        }
    } else if tag == 2 {
        match parse_pair(p) {
            Ok(((a, b), p1)) => Ok(
                (RecordModel::SegmentSeal { segment_id: a, next_segment_id: b }, p1),
            ),
            Err(e) => Err(e),
        }
    } else if tag == 3 {
        match parse_u16(p) {
            Ok((n, p1)) => match parse_deltas(p1, n as nat) {
                Ok((deltas, p2)) => Ok((RecordModel::AggDelta { deltas }, p2)),
                Err(e) => Err(e),
            },
            Err(e) => Err(e),
        }
    } else if tag == 4 {
        match parse_pair(p) {
            Ok(((a, b), p1)) => Ok(
                (RecordModel::SegmentSwap { old_segment_id: a, new_segment_id: b }, p1),
            ),
            Err(e) => Err(e),
        }
    } else if tag == 5 {
        match parse_u64(p) {
            Ok((new_segment_id, p1)) => match parse_u16(p1) {
                Ok((n, p2)) => match parse_entries(p2, n as nat) {
                    Ok((entries, p3)) => Ok(
                        (RecordModel::SegmentRemap { new_segment_id, entries }, p3),
                    ),
                    Err(e) => Err(e),
                },
                Err(e) => Err(e),
            },
            Err(e) => Err(e),
        }
    } else {
        Err(ErrorModel::Corrupt("unknown record tag "@ + digits(tag as nat)))
    }
}

/// The record that a payload stands for. Bytes after the record are ignored.
pub open spec fn record_of(payload: Seq<u8>) -> Result<RecordModel, ErrorModel> {
    match parse_bytes(payload, 1) {
        Ok((tag, rest)) => match parse_body(tag[0], rest) {
            Ok((rec, _)) => Ok(rec),
            Err(e) => Err(e),
        },
        Err(e) => Err(e),
    }
}

/// What reading from the front of `*p` does: the value and the rest, or the
/// error, as `parsed` says.
pub open spec fn reads<T>(
    parsed: Parsed<T>,
    res: Result<T, ErrorModel>,
    after: Seq<u8>,
) -> bool {
    match parsed {
        Ok((v, rest)) => res == Ok::<T, ErrorModel>(v) && after == rest,
        Err(e) => res == Err::<T, ErrorModel>(e),
    }
}

/// The outcome of reading a number.
pub open spec fn outcome<T>(res: Result<T, StoreError>) -> Result<T, ErrorModel> {
    match res {
        Ok(v) => Ok(v),
        Err(e) => Err(e@),
    }
}

pub fn take<'a>(p: &mut &'a [u8], n: usize) -> (res: Result<&'a [u8], StoreError>)
    ensures
        reads(
            parse_bytes(old(p)@, n as nat),
            match res {
                Ok(b) => Ok(b@),
                Err(e) => Err(e@),
            },
            final(p)@,
        ),
{
    let whole: &'a [u8] = *p;
    if whole.len() < n {
        return Err(corrupt("truncated record"));
    }
    let (head, tail) = whole.split_at(n);
    *p = tail;
    assert(head@ =~= old(p)@.take(n as int));
    assert(tail@ =~= old(p)@.skip(n as int));
    Ok(head)
}

pub fn take_u64(p: &mut &[u8]) -> (res: Result<u64, StoreError>)
    ensures
        reads(parse_u64(old(p)@), outcome(res), final(p)@),
{
    match take(p, 8) {
        Ok(b) => Ok(u64_from_le_bytes(b)),
        Err(e) => Err(e),
    }
}

pub fn take_u32(p: &mut &[u8]) -> (res: Result<u32, StoreError>)
    ensures
        reads(parse_u32(old(p)@), outcome(res), final(p)@),
{
    match take(p, 4) {
        Ok(b) => Ok(u32_from_le_bytes(b)),
        Err(e) => Err(e),
    }
}

pub fn take_u16(p: &mut &[u8]) -> (res: Result<u16, StoreError>)
    ensures
        reads(parse_u16(old(p)@), outcome(res), final(p)@),
{
    match take(p, 2) {
        Ok(b) => Ok(u16_from_le_bytes(b)),
        Err(e) => Err(e),
    }
}

/// `String::from_utf8`: the text, exactly where the bytes are valid UTF-8.
#[verifier::external_body]
fn string_from_utf8(bytes: Vec<u8>) -> (res: Option<String>)
    ensures
        res is Some <==> valid_utf8(bytes@),
        res matches Some(s) ==> s@ == decode_utf8(bytes@),
{
    String::from_utf8(bytes).ok()
}

pub open spec fn text_outcome(res: Result<String, StoreError>) -> Result<Seq<char>, ErrorModel> {
    match res {
        Ok(s) => Ok(s@),
        Err(e) => Err(e@),
    }
}

pub fn take_utf8(p: &mut &[u8], n: usize, what: &str) -> (res: Result<String, StoreError>)
    ensures
        reads(parse_utf8(old(p)@, n as nat, what@), text_outcome(res), final(p)@),
{
    match take(p, n) {
        Ok(b) => {
            let mut bytes: Vec<u8> = Vec::new();
            bytes.extend_from_slice(b);
            assert(bytes@ =~= b@);
            match string_from_utf8(bytes) {
                Some(s) => Ok(s),
                None => {
                    let mut msg = "invalid utf-8 in ".to_string();
                    msg.append(what);
                    Err(StoreError::Corrupt(msg))
                },
            }
        },
        Err(e) => Err(e),
    }
}

/// Text with its length in front.
fn take_text(p: &mut &[u8], what: &str) -> (res: Result<String, StoreError>)
    ensures
        reads(parse_text(old(p)@, what@), text_outcome(res), final(p)@),
{
    let n: u16 = take_u16(p)?;
    take_utf8(p, n as usize, what)
}

fn take_delta(p: &mut &[u8]) -> (res: Result<AggDeltaEntry, StoreError>)
    ensures
        reads(
            parse_delta(old(p)@),
            match res {
                Ok(d) => Ok(d@),
                Err(e) => Err(e@),
            },
            final(p)@,
        ),
{
    let prefix = take_text(p, "prefix")?;
    let object_count_delta: u64 = take_u64(p)?;
    let byte_count_delta: u64 = take_u64(p)?;
    Ok(AggDeltaEntry { prefix, object_count_delta, byte_count_delta })
}

fn take_entry(p: &mut &[u8]) -> (res: Result<RemapEntry, StoreError>)
    ensures
        reads(
            parse_entry(old(p)@),
            match res {
                Ok(e) => Ok(e@),
                Err(e) => Err(e@),
            },
            final(p)@,
        ),
{
    let key = take_text(p, "key")?;
    let lsn: u64 = take_u64(p)?;
    let offset: u64 = take_u64(p)?;
    let len: u32 = take_u32(p)?;
    Ok(RemapEntry { key, lsn, offset, len })
}

fn take_deltas(p: &mut &[u8], n: usize) -> (res: Result<Vec<AggDeltaEntry>, StoreError>)
    ensures
        reads(
            parse_deltas(old(p)@, n as nat),
            match res {
                Ok(ds) => Ok(delta_models(ds@)),
                Err(e) => Err(e@),
            },
            final(p)@,
        ),
{
    let mut deltas: Vec<AggDeltaEntry> = Vec::with_capacity(n);
    for i in 0..n
        invariant
            parse_deltas(old(p)@, n as nat) == (match parse_deltas(p@, (n - i) as nat) {
                Ok((ds, rest)) => Ok((delta_models(deltas@) + ds, rest)),
                Err(e) => Err(e),
            }),
    {
        let ghost before = delta_models(deltas@);
        let d = take_delta(p)?;
        proof {
            assert(delta_models(deltas@.push(d)) =~= before.push(d@));
            match parse_deltas(p@, (n - i - 1) as nat) {
                Ok((ds, _)) => {
                    assert(before + (seq![d@] + ds) =~= before.push(d@) + ds);
                },
                Err(_) => {},
            }
        }
        deltas.push(d);
    }
    proof {
        assert(delta_models(deltas@) + Seq::<DeltaModel>::empty() =~= delta_models(deltas@));
    }
    Ok(deltas)
}

fn take_entries(p: &mut &[u8], n: usize) -> (res: Result<Vec<RemapEntry>, StoreError>)
    ensures
        reads(
            parse_entries(old(p)@, n as nat),
            match res {
                Ok(es) => Ok(entry_models(es@)),
                Err(e) => Err(e@),
            },
            final(p)@,
        ),
{
    let mut entries: Vec<RemapEntry> = Vec::with_capacity(n);
    for i in 0..n
        invariant
            parse_entries(old(p)@, n as nat) == (match parse_entries(p@, (n - i) as nat) {
                Ok((es, rest)) => Ok((entry_models(entries@) + es, rest)),
                Err(e) => Err(e),
            }),
    {
        let ghost before = entry_models(entries@);
        let e = take_entry(p)?;
        proof {
            assert(entry_models(entries@.push(e)) =~= before.push(e@));
            match parse_entries(p@, (n - i - 1) as nat) {
                Ok((es, _)) => {
                    assert(before + (seq![e@] + es) =~= before.push(e@) + es);
                },
                Err(_) => {},
            }
        }
        entries.push(e);
    }
    proof {
        assert(entry_models(entries@) + Seq::<EntryModel>::empty() =~= entry_models(entries@));
    }
    Ok(entries)
}

pub open spec fn record_outcome(res: Result<Record, StoreError>) -> Result<RecordModel, ErrorModel> {
    match res {
        Ok(r) => Ok(r@),
        Err(e) => Err(e@),
    }
}

/// The record that `payload` stands for.
pub fn decode_record(payload: &[u8]) -> (res: Result<Record, StoreError>)
    ensures
        record_outcome(res) == record_of(payload@),
{
    let mut p: &[u8] = payload;
    let tag: u8 = take(&mut p, 1)?[0];
    if tag == TAG_PUT {
        let stripe_id: u64 = take_u64(&mut p)?;
        let len: u32 = take_u32(&mut p)?;
        let key = take_text(&mut p, "key")?;
        Ok(Record::Put { key, len, stripe_id })
    } else if tag == TAG_COMMIT {
        let lsn: u64 = take_u64(&mut p)?;
        Ok(Record::Commit { lsn })
    } else if tag == TAG_SEAL {
        let segment_id: u64 = take_u64(&mut p)?;
        let next_segment_id: u64 = take_u64(&mut p)?;
        Ok(Record::SegmentSeal { segment_id, next_segment_id })
    } else if tag == TAG_AGG {
        let n: u16 = take_u16(&mut p)?;
        let deltas = take_deltas(&mut p, n as usize)?;
        Ok(Record::AggDelta { deltas })
    } else if tag == TAG_SWAP {
        let old_segment_id: u64 = take_u64(&mut p)?;
        let new_segment_id: u64 = take_u64(&mut p)?;
        Ok(Record::SegmentSwap { old_segment_id, new_segment_id })
    } else if tag == TAG_REMAP {
        let new_segment_id: u64 = take_u64(&mut p)?;
        let n: u16 = take_u16(&mut p)?;
        let entries = take_entries(&mut p, n as usize)?;
        Ok(Record::SegmentRemap { new_segment_id, entries })
    } else {
        let mut msg = "unknown record tag ".to_string();
        msg.append(decimal(tag as u64).as_str());
        Err(StoreError::Corrupt(msg))
    }
}

proof fn lemma_parse_u64(x: u64, rest: Seq<u8>)
    ensures
        parse_u64(spec_u64_to_le_bytes(x) + rest) == Ok::<(u64, Seq<u8>), ErrorModel>((x, rest)),
{
    lemma_le_lengths();
    let p = spec_u64_to_le_bytes(x) + rest;
    assert(p.take(8) =~= spec_u64_to_le_bytes(x));
    assert(p.skip(8) =~= rest);
}

proof fn lemma_parse_u32(x: u32, rest: Seq<u8>)
    ensures
        parse_u32(spec_u32_to_le_bytes(x) + rest) == Ok::<(u32, Seq<u8>), ErrorModel>((x, rest)),
{
    lemma_le_lengths();
    let p = spec_u32_to_le_bytes(x) + rest;
    assert(p.take(4) =~= spec_u32_to_le_bytes(x));
    assert(p.skip(4) =~= rest);
}

proof fn lemma_parse_u16(x: u16, rest: Seq<u8>)
    ensures
        parse_u16(spec_u16_to_le_bytes(x) + rest) == Ok::<(u16, Seq<u8>), ErrorModel>((x, rest)),
{
    lemma_le_lengths();
    let p = spec_u16_to_le_bytes(x) + rest;
    assert(p.take(2) =~= spec_u16_to_le_bytes(x));
    assert(p.skip(2) =~= rest);
}

proof fn lemma_parse_text(s: Seq<char>, what: Seq<char>, rest: Seq<u8>)
    requires
        encode_utf8(s).len() <= u16::MAX,
    ensures
        parse_text(text_bytes(s) + rest, what) == Ok::<(Seq<char>, Seq<u8>), ErrorModel>((s, rest)),
{
    let b = encode_utf8(s);
    let n = b.len() as u16;
    assert(text_bytes(s) + rest =~= spec_u16_to_le_bytes(n) + (b + rest));
    lemma_parse_u16(n, b + rest);
    assert((b + rest).take(n as int) =~= b);
    assert((b + rest).skip(n as int) =~= rest);
    encode_utf8_valid_utf8(s);
    encode_utf8_decode_utf8(s);
}

proof fn lemma_parse_delta(d: DeltaModel, rest: Seq<u8>)
    requires
        encode_utf8(d.prefix).len() <= u16::MAX,
    ensures
        parse_delta(delta_bytes(d) + rest) == Ok::<(DeltaModel, Seq<u8>), ErrorModel>((d, rest)),
{
    let c = spec_u64_to_le_bytes(d.object_count_delta);
    let b = spec_u64_to_le_bytes(d.byte_count_delta);
    assert(delta_bytes(d) + rest =~= text_bytes(d.prefix) + (c + (b + rest)));
    lemma_parse_text(d.prefix, "prefix"@, c + (b + rest));
    lemma_parse_u64(d.object_count_delta, b + rest);
    lemma_parse_u64(d.byte_count_delta, rest);
}

proof fn lemma_parse_entry(e: EntryModel, rest: Seq<u8>)
    requires
        encode_utf8(e.key).len() <= u16::MAX,
    ensures
        parse_entry(entry_bytes(e) + rest) == Ok::<(EntryModel, Seq<u8>), ErrorModel>((e, rest)),
{
    let l = spec_u64_to_le_bytes(e.lsn);
    let o = spec_u64_to_le_bytes(e.offset);
    let n = spec_u32_to_le_bytes(e.len);
    assert(entry_bytes(e) + rest =~= text_bytes(e.key) + (l + (o + (n + rest))));
    lemma_parse_text(e.key, "key"@, l + (o + (n + rest)));
    lemma_parse_u64(e.lsn, o + (n + rest));
    lemma_parse_u64(e.offset, n + rest);
    lemma_parse_u32(e.len, rest);
}

/// `deltas_bytes` taken from the front.
pub(crate) proof fn lemma_deltas_bytes_front(ds: Seq<DeltaModel>)
    requires
        ds.len() > 0,
    ensures
        deltas_bytes(ds) == delta_bytes(ds[0]) + deltas_bytes(ds.skip(1)),
    decreases ds.len(),
{
    if ds.len() == 1 {
        assert(ds.drop_last() =~= Seq::<DeltaModel>::empty());
        assert(ds.skip(1) =~= Seq::<DeltaModel>::empty());
        assert(deltas_bytes(ds) =~= delta_bytes(ds[0]) + deltas_bytes(ds.skip(1)));
    } else {
        lemma_deltas_bytes_front(ds.drop_last());
        assert(ds.drop_last().skip(1) =~= ds.skip(1).drop_last());
        assert(ds.skip(1).last() == ds.last());
        assert(deltas_bytes(ds) =~= delta_bytes(ds[0]) + deltas_bytes(ds.skip(1)));
    }
}

pub(crate) proof fn lemma_entries_bytes_front(es: Seq<EntryModel>)
    requires
        es.len() > 0,
    ensures
        entries_bytes(es) == entry_bytes(es[0]) + entries_bytes(es.skip(1)),
    decreases es.len(),
{
    if es.len() == 1 {
        assert(es.drop_last() =~= Seq::<EntryModel>::empty());
        assert(es.skip(1) =~= Seq::<EntryModel>::empty());
        assert(entries_bytes(es) =~= entry_bytes(es[0]) + entries_bytes(es.skip(1)));
    } else {
        lemma_entries_bytes_front(es.drop_last());
        assert(es.drop_last().skip(1) =~= es.skip(1).drop_last());
        assert(es.skip(1).last() == es.last());
        assert(entries_bytes(es) =~= entry_bytes(es[0]) + entries_bytes(es.skip(1)));
    }
}

proof fn lemma_parse_deltas(ds: Seq<DeltaModel>, rest: Seq<u8>)
    requires
        deltas_bytes(ds).len() <= u16::MAX,
    ensures
        parse_deltas(deltas_bytes(ds) + rest, ds.len()) == Ok::<
            (Seq<DeltaModel>, Seq<u8>),
            ErrorModel,
        >((ds, rest)),
    decreases ds.len(),
{
    if ds.len() == 0 {
        assert(deltas_bytes(ds) + rest =~= rest);
        assert(ds =~= Seq::<DeltaModel>::empty());
    } else {
        lemma_deltas_bytes_front(ds);
        lemma_deltas_len(ds, 0);
        let tail = ds.skip(1);
        assert(deltas_bytes(ds) + rest =~= delta_bytes(ds[0]) + (deltas_bytes(tail) + rest));
        lemma_parse_delta(ds[0], deltas_bytes(tail) + rest);
        lemma_parse_deltas(tail, rest);
        assert(seq![ds[0]] + tail =~= ds);
    }
}

proof fn lemma_parse_entries(es: Seq<EntryModel>, rest: Seq<u8>)
    requires
        entries_bytes(es).len() <= u16::MAX,
    ensures
        parse_entries(entries_bytes(es) + rest, es.len()) == Ok::<
            (Seq<EntryModel>, Seq<u8>),
            ErrorModel,
        >((es, rest)),
    decreases es.len(),
{
    if es.len() == 0 {
        assert(entries_bytes(es) + rest =~= rest);
        assert(es =~= Seq::<EntryModel>::empty());
    } else {
        lemma_entries_bytes_front(es);
        lemma_entries_len(es, 0);
        let tail = es.skip(1);
        assert(entries_bytes(es) + rest =~= entry_bytes(es[0]) + (entries_bytes(tail) + rest));
        lemma_parse_entry(es[0], entries_bytes(tail) + rest);
        lemma_parse_entries(tail, rest);
        assert(seq![es[0]] + tail =~= es);
    }
}

/// Decoding gives back the record that was encoded, whatever bytes follow it.
pub proof fn lemma_decode_encode_record(rec: RecordModel, rest: Seq<u8>)
    requires
        encodable(rec),
    ensures
        record_of(record_bytes(rec) + rest) == Ok::<RecordModel, ErrorModel>(rec),
{
    lemma_le_lengths();
    let p = record_bytes(rec) + rest;
    let t = seq![tag_of(rec)];
    assert(p.take(1) =~= t);
    match rec {
        RecordModel::Put { key, len, stripe_id } => {
            let a = spec_u64_to_le_bytes(stripe_id);
            let b = spec_u32_to_le_bytes(len);
            assert(p.skip(1) =~= a + (b + (text_bytes(key) + rest)));
            lemma_parse_u64(stripe_id, b + (text_bytes(key) + rest));
            lemma_parse_u32(len, text_bytes(key) + rest);
            lemma_parse_text(key, "key"@, rest);
        },
        RecordModel::Commit { lsn } => {
            assert(p.skip(1) =~= spec_u64_to_le_bytes(lsn) + rest);
            lemma_parse_u64(lsn, rest);
        },
        RecordModel::SegmentSeal { segment_id, next_segment_id } => {
            let b = spec_u64_to_le_bytes(next_segment_id);
            assert(p.skip(1) =~= spec_u64_to_le_bytes(segment_id) + (b + rest));
            lemma_parse_u64(segment_id, b + rest);
            lemma_parse_u64(next_segment_id, rest);
        },
        RecordModel::AggDelta { deltas } => {
            lemma_deltas_len(deltas, 0);
            let b = deltas_bytes(deltas);
            assert(p.skip(1) =~= spec_u16_to_le_bytes(deltas.len() as u16) + (b + rest));
            lemma_parse_u16(deltas.len() as u16, b + rest);
            lemma_parse_deltas(deltas, rest);
        },
        RecordModel::SegmentSwap { old_segment_id, new_segment_id } => {
            let b = spec_u64_to_le_bytes(new_segment_id);
            assert(p.skip(1) =~= spec_u64_to_le_bytes(old_segment_id) + (b + rest));
            lemma_parse_u64(old_segment_id, b + rest);
            lemma_parse_u64(new_segment_id, rest);
        },
        RecordModel::SegmentRemap { new_segment_id, entries } => {
            lemma_entries_len(entries, 0);
            let c = spec_u16_to_le_bytes(entries.len() as u16);
            let b = entries_bytes(entries);
            assert(p.skip(1) =~= spec_u64_to_le_bytes(new_segment_id) + (c + (b + rest)));
            lemma_parse_u64(new_segment_id, c + (b + rest));
            lemma_parse_u16(entries.len() as u16, b + rest);
            lemma_parse_entries(entries, rest);
        },
    }
}

/// A record with its LSN.
pub type Logged = (u64, RecordModel);

/// The block that carries a record.
#[verifier::opaque]
pub open spec fn logged_bytes(l: Logged) -> Seq<u8> {
    block_bytes(l.0, record_bytes(l.1), tag_of(l.1))
}

/// The WAL file that holds `log`.
pub open spec fn log_bytes(log: Seq<Logged>) -> Seq<u8>
    decreases log.len(),
{
    if log.len() == 0 {
        Seq::empty()
    } else {
        log_bytes(log.drop_last()) + logged_bytes(log.last())
    }
}

/// The record that a block carries, if the block is good.
#[verifier::opaque]
pub open spec fn logged_of(b: Seq<u8>) -> Option<Logged> {
    match block_of(b) {
        Ok(blk) => match record_of(blk.payload) {
            Ok(rec) => Some((blk.lsn, rec)),
            Err(_) => None,
        },
        Err(_) => None,
    }
}

/// The records at the front of a WAL file, up to the first block that is torn
/// or does not decode.
pub open spec fn scan_of(file: Seq<u8>) -> Seq<Logged>
    decreases file.len(),
{
    if file.len() < BLOCK_SIZE {
        Seq::empty()
    } else {
        match logged_of(file.take(BLOCK_SIZE as int)) {
            Some(l) => seq![l] + scan_of(file.skip(BLOCK_SIZE as int)),
            None => Seq::empty(),
        }
    }
}

/// How many records there are up to and with the last `Commit`.
pub open spec fn committed_len(log: Seq<Logged>) -> nat
    decreases log.len(),
{
    if log.len() == 0 {
        0
    } else if log.last().1 is Commit {
        log.len()
    } else {
        committed_len(log.drop_last())
    }
}

/// The records up to and with the last `Commit`.
pub open spec fn committed_part(log: Seq<Logged>) -> Seq<Logged> {
    log.take(committed_len(log) as int)
}

/// The length to which recovery cuts a WAL file: that of its records up to and
/// with the last `Commit`.
pub open spec fn cut_len(file: Seq<u8>) -> nat {
    committed_len(scan_of(file)) * BLOCK_SIZE as nat
}

/// The greater of the LSN that the last `Commit` names and the LSN of the last
/// record; zero for what is not there.
pub open spec fn high_water_of(log: Seq<Logged>) -> u64 {
    let n = committed_len(log);
    let c = if n == 0 {
        0u64
    } else {
        log[n - 1].1->Commit_lsn
    };
    let last = if log.len() == 0 {
        0u64
    } else {
        log.last().0
    };
    if c >= last {
        c
    } else {
        last
    }
}

/// What logged records say.
pub open spec fn logged_models(log: Seq<(Lsn, Record)>) -> Seq<Logged> {
    log.map_values(|l: (Lsn, Record)| (l.0, l.1@))
}

pub open spec fn record_models(recs: Seq<Record>) -> Seq<RecordModel> {
    recs.map_values(|r: Record| r@)
}

/// Every record of the log fits in a block.
pub open spec fn log_encodable(log: Seq<Logged>) -> bool {
    forall|i: int| 0 <= i < log.len() ==> encodable((#[trigger] log[i]).1)
}

pub proof fn lemma_committed_len(log: Seq<Logged>)
    ensures
        committed_len(log) <= log.len(),
        committed_len(log) > 0 ==> log[committed_len(log) - 1].1 is Commit,
        forall|i: int| committed_len(log) <= i < log.len() ==> !((#[trigger] log[i]).1 is Commit),
    decreases log.len(),
{
    if log.len() > 0 && !(log.last().1 is Commit) {
        lemma_committed_len(log.drop_last());
        assert forall|i: int| committed_len(log) <= i < log.len() implies !((
        #[trigger] log[i]).1 is Commit) by {
            if i < log.len() - 1 {
                assert(log.drop_last()[i] == log[i]);
            }
        }
    }
}

/// The last `Commit` is where a record before it and none after it says so.
proof fn lemma_committed_len_is(log: Seq<Logged>, n: nat)
    requires
        n <= log.len(),
        n > 0 ==> log[n - 1].1 is Commit,
        forall|i: int| n <= i < log.len() ==> !((#[trigger] log[i]).1 is Commit),
    ensures
        committed_len(log) == n,
{
    lemma_committed_len(log);
}

/// What a WAL holds.
#[verifier::ext_equal]
pub ghost struct WalModel {
    /// The records in the file, as far as every sync succeeded.
    pub durable: Seq<Logged>,
    /// The records that wait for a sync.
    pub buffered: Seq<Logged>,
    pub next_lsn: u64,
}

/// The mark that a recovery of `log` leaves: no LSN up to it is to be used
/// again. `floor` is the mark before.
pub open spec fn mark_after(log: Seq<Logged>, floor: u64) -> u64 {
    if high_water_of(log) > floor {
        high_water_of(log)
    } else {
        floor
    }
}

impl WalModel {
    /// All records, in order.
    pub open spec fn log(self) -> Seq<Logged> {
        self.durable + self.buffered
    }

    /// The WAL after a record was appended.
    pub open spec fn appended(self, rec: RecordModel, lsn: u64) -> WalModel {
        WalModel {
            buffered: self.buffered.push((lsn, rec)),
            next_lsn: if lsn + 1 > self.next_lsn {
                (lsn + 1) as u64
            } else {
                self.next_lsn
            },
            ..self
        }
    }

    /// The WAL after its buffer was written and fsynced.
    pub open spec fn synced(self) -> WalModel {
        WalModel { durable: self.log(), buffered: Seq::empty(), ..self }
    }
}

/// The in-memory side of the write-ahead log.
pub struct Wal {
    buf: Vec<u8>,
    next_lsn: Lsn,
    dirty: bool,
    durable: Ghost<Seq<Logged>>,
    buffered: Ghost<Seq<Logged>>,
}

impl View for Wal {
    type V = WalModel;

    closed spec fn view(&self) -> WalModel {
        WalModel {
            durable: self.durable@,
            buffered: self.buffered@,
            next_lsn: self.next_lsn,
        }
    }
}

impl Wal {
    pub closed spec fn wf(&self) -> bool {
        &&& self.buf@ == log_bytes(self.buffered@)
        &&& self.dirty == (self.buffered@.len() > 0)
        &&& log_encodable(self.buffered@)
    }

    /// Recovers the WAL from the bytes of its file. Besides the WAL this gives
    /// the length to which the file is to be truncated, which ends it at the
    /// last durable commit. The next LSN continues past the recovered
    /// high-water mark, and past `floor`: the mark that the last recovery left,
    /// or zero before the first. The file is cut at the last commit, so it does
    /// not tell of LSNs that a recovery discarded; the mark does.
    pub fn open(file: &[u8], floor: Lsn) -> (res: (Wal, u64))
        requires
            high_water_of(scan_of(file@)) < u64::MAX,
            floor < u64::MAX,
        ensures
            res.0.wf(),
            res.0@ == (WalModel {
                durable: committed_part(scan_of(file@)),
                buffered: Seq::empty(),
                next_lsn: (mark_after(scan_of(file@), floor) + 1) as u64,
            }),
            res.1 == cut_len(file@),
    {
        let (records, high_water) = Self::replay(file);
        let ghost log = scan_of(file@);
        proof {
            lemma_committed_len(log);
            lemma_scan_len(file@);
            assert(record_models(records@).len() == committed_part(log).len());
            assert(file.len() >= log.len() * BLOCK_SIZE);
        }
        let keep: usize = records.len() * BLOCK_SIZE;
        let wal = Wal {
            buf: Vec::new(),
            next_lsn: if high_water > floor {
                high_water + 1
            } else {
                floor + 1
            },
            dirty: false,
            durable: Ghost(committed_part(log)),
            buffered: Ghost(Seq::empty()),
        };
        (wal, keep as u64)
    }

    /// Appends a record to the in-memory WAL buffer and returns its LSN.
    /// The record is not durable until its buffer has been synced.
    pub fn append(&mut self, rec: &Record) -> (res: Result<Lsn, StoreError>)
        requires
            old(self).wf(),
            old(self)@.next_lsn < u64::MAX,
        ensures
            final(self).wf(),
            match res {
                Ok(lsn) => encodable(rec@) && lsn == old(self)@.next_lsn && final(self)@ == old(
                    self,
                )@.appended(rec@, old(self)@.next_lsn),
                Err(e) => !encodable(rec@) && e@ == ErrorModel::RecordTooLarge && final(self)@ == old(
                    self,
                )@,
            },
    {
        let lsn: u64 = self.next_lsn;
        self.append_at(rec, lsn)?;
        Ok(lsn)
    }

    /// Appends a record at an explicit LSN (used by followers replicating
    /// the leader's record sequence).
    pub fn append_at(&mut self, rec: &Record, lsn: Lsn) -> (res: Result<(), StoreError>)
        requires
            old(self).wf(),
            lsn < u64::MAX,
        ensures
            final(self).wf(),
            match res {
                Ok(()) => encodable(rec@) && final(self)@ == old(self)@.appended(rec@, lsn),
                Err(e) => !encodable(rec@) && e@ == ErrorModel::RecordTooLarge && final(self)@ == old(
                    self,
                )@,
            },
    {
        let payload = encode_record(rec)?;
        let tag: u8 = payload[0];
        match block::encode(lsn, payload.as_slice(), tag) {
            Ok(encoded) => {
                proof {
                    let before = self.buffered@;
                    let l = (lsn, rec@);
                    assert(before.push(l).drop_last() =~= before);
                    self.buffered@ = before.push(l);
                    assert(tag == tag_of(rec@));
                    reveal(logged_bytes);
                }
                self.buf.extend_from_slice(&encoded);
                assert(self.buf@ =~= log_bytes(self.buffered@));
            },
            Err(_) => {
                return Err(StoreError::RecordTooLarge);
            },
        }
        if lsn + 1 > self.next_lsn {
            self.next_lsn = lsn + 1;
        }
        self.dirty = true;
        Ok(())
    }

    /// The bytes to write at the end of the WAL file, which is then to be
    /// fsynced; nothing if there is nothing to sync.
    pub fn unsynced(&self) -> (bytes: Option<&[u8]>)
        requires
            self.wf(),
        ensures
            match bytes {
                Some(b) => self@.buffered.len() > 0 && b@ == log_bytes(self@.buffered),
                None => self@.buffered.len() == 0,
            },
    {
        if !self.dirty {
            return None;
        }
        Some(self.buf.as_slice())
    }

    /// The bytes to write at the end of the WAL file so that a commit of
    /// everything up to `upto` is in it.
    pub fn unsynced_with_commit(&self, upto: Lsn) -> (bytes: Vec<u8>)
        requires
            self.wf(),
        ensures
            bytes@ == log_bytes(
                self@.buffered.push((self@.next_lsn, RecordModel::Commit { lsn: upto })),
            ),
    {
        let rec = Record::Commit { lsn: upto };
        let ghost l = (self.next_lsn, rec@);
        proof {
            lemma_fixed_encodable(rec@);
            assert(self.buffered@.push(l).drop_last() =~= self.buffered@);
        }
        let mut bytes: Vec<u8> = self.buf.clone();
        assert(bytes@ =~= self.buf@);
        match encode_record(&rec) {
            Ok(payload) => match block::encode(self.next_lsn, payload.as_slice(), TAG_COMMIT) {
                Ok(encoded) => {
                    bytes.extend_from_slice(&encoded);
                    proof {
                        reveal(logged_bytes);
                    }
                    assert(bytes@ =~= self.buf@ + logged_bytes(l));
                },
                Err(_) => {
                    assert(false);
                },
            },
            Err(_) => {
                assert(false);
            },
        }
        bytes
    }

    /// Takes note of how writing and fsyncing the buffered blocks went.
    pub fn sync(&mut self, written: Result<(), StoreError>) -> (res: Result<(), StoreError>)
        requires
            old(self).wf(),
        ensures
            final(self).wf(),
            old(self)@.buffered.len() == 0 ==> res is Ok && final(self)@ == old(self)@,
            old(self)@.buffered.len() > 0 ==> res == written,
            old(self)@.buffered.len() > 0 ==> final(self)@ == (if written is Ok {
                old(self)@.synced()
            } else {
                old(self)@
            }),
    {
        if !self.dirty {
            return Ok(());
        }
        written?;
        self.buf.clear();
        self.dirty = false;
        proof {
            self.durable@ = self.durable@ + self.buffered@;
            self.buffered@ = Seq::empty();
        }
        Ok(())
    }

    pub fn next_lsn(&self) -> (lsn: Lsn)
        ensures
            lsn == self@.next_lsn,
    {
        self.next_lsn
    }

    /// Reads a WAL file. Stops at the first torn or corrupt block, discards
    /// records after the last durable `Commit`, and returns the surviving
    /// records plus the recovered high-water LSN.
    pub fn replay(file: &[u8]) -> (res: (Vec<Record>, Lsn))
        ensures
            record_models(res.0@) == committed_part(scan_of(file@)).map_values(|l: Logged| l.1),
            res.1 == high_water_of(scan_of(file@)),
    {
        let (records, high_water) = Self::replay_with_lsns(file);
        let ghost log = logged_models(records@);
        let mut out: Vec<Record> = Vec::new();
        for l in it: records
            invariant
                it.seq() == records@,
                record_models(out@) == log.take(it.index()).map_values(|l: Logged| l.1),
                log == logged_models(records@),
        {
            proof {
                assert(log.take(it.index() + 1) =~= log.take(it.index()).push((l.0, l.1@)));
                assert(log.take(it.index() + 1).map_values(|l: Logged| l.1) =~= log.take(
                    it.index(),
                ).map_values(|l: Logged| l.1).push(l.1@));
                assert(record_models(out@.push(l.1)) =~= record_models(out@).push(l.1@));
            }
            out.push(l.1);
        }
        assert(log.take(log.len() as int) =~= log);
        (out, high_water)
    }

    /// Like [`Wal::replay`] but keeps each record's block LSN.
    pub fn replay_with_lsns(file: &[u8]) -> (res: (Vec<(Lsn, Record)>, Lsn))
        ensures
            logged_models(res.0@) == committed_part(scan_of(file@)),
            res.1 == high_water_of(scan_of(file@)),
    {
        let mut records = Self::scan(file);
        let ghost log = scan_of(file@);
        let total: usize = records.len();
        let mut keep: usize = total;
        let mut high_water: u64 = 0;
        while keep > 0
            invariant_except_break
                high_water == 0,
            invariant
                keep <= total,
                total == records@.len(),
                log == logged_models(records@),
                forall|i: int| keep <= i < log.len() ==> !((#[trigger] log[i]).1 is Commit),
            ensures
                keep > 0 ==> log[keep - 1].1 == (RecordModel::Commit { lsn: high_water }),
                keep == 0 ==> high_water == 0,
            decreases keep,
        {
            assert(log[keep - 1] == (records@[keep - 1].0, records@[keep - 1].1@));
            if let Record::Commit { lsn } = &records[keep - 1].1 {
                high_water = *lsn;
                break;
            }
            keep -= 1;
        }
        proof {
            lemma_committed_len_is(log, keep as nat);
        }
        let last: u64 = if total == 0 {
            0
        } else {
            assert(log.last() == (records@[total - 1].0, records@[total - 1].1@));
            records[total - 1].0
        };
        records.truncate(keep);
        assert(logged_models(records@) =~= committed_part(log));
        if last > high_water {
            high_water = last;
        }
        (records, high_water)
    }

    /// Reads every valid record of a WAL file with its block LSN, stopping at
    /// the first torn or corrupt block. No commit filtering is applied.
    pub fn scan(file: &[u8]) -> (records: Vec<(Lsn, Record)>)
        ensures
            logged_models(records@) == scan_of(file@),
    {
        let mut records: Vec<(Lsn, Record)> = Vec::new();
        let mut at: usize = 0;
        assert(file@.skip(0) =~= file@);
        assert(logged_models(records@) + scan_of(file@) =~= scan_of(file@));
        while file.len() - at >= BLOCK_SIZE
            invariant_except_break
                scan_of(file@) == logged_models(records@) + scan_of(file@.skip(at as int)),
            invariant
                at <= file@.len(),
            ensures
                scan_of(file@) == logged_models(records@),
            decreases file@.len() - at,
        {
            let ghost rest = file@.skip(at as int);
            proof {
                reveal(logged_of);
            }
            let blk = block::block_at(file, at);
            let ghost before = logged_models(records@);
            match block::decode(&blk) {
                Ok(decoded) => match decode_record(decoded.payload.as_slice()) {
                    Ok(rec) => {
                        proof {
                            let l = (decoded.lsn, rec@);
                            assert(logged_of(rest.take(BLOCK_SIZE as int)) == Some(l));
                            assert(logged_models(records@.push((decoded.lsn, rec))) =~= before.push(
                                l,
                            ));
                            assert(rest.skip(BLOCK_SIZE as int) =~= file@.skip(at + BLOCK_SIZE));
                            assert(before + (seq![l] + scan_of(file@.skip(at + BLOCK_SIZE)))
                                =~= before.push(l) + scan_of(file@.skip(at + BLOCK_SIZE)));
                        }
                        records.push((decoded.lsn, rec));
                        at += BLOCK_SIZE;
                    },
                    Err(_) => {
                        assert(scan_of(file@) =~= before);
                        break;
                    },
                },
                Err(_) => {
                    assert(scan_of(file@) =~= before);
                    break;
                },
            }
        }
        records
    }
}

proof fn lemma_scan_len(file: Seq<u8>)
    ensures
        scan_of(file).len() * BLOCK_SIZE <= file.len(),
    decreases file.len(),
{
    if file.len() >= BLOCK_SIZE {
        match logged_of(file.take(BLOCK_SIZE as int)) {
            Some(_) => {
                lemma_scan_len(file.skip(BLOCK_SIZE as int));
            },
            None => {},
        }
    }
}

/// `log_bytes` taken from the front.
proof fn lemma_log_bytes_front(log: Seq<Logged>)
    requires
        log.len() > 0,
    ensures
        log_bytes(log) == logged_bytes(log[0]) + log_bytes(log.skip(1)),
    decreases log.len(),
{
    if log.len() == 1 {
        assert(log.drop_last() =~= Seq::<Logged>::empty());
        assert(log.skip(1) =~= Seq::<Logged>::empty());
        assert(log_bytes(log) =~= logged_bytes(log[0]) + log_bytes(log.skip(1)));
    } else {
        lemma_log_bytes_front(log.drop_last());
        assert(log.drop_last().skip(1) =~= log.skip(1).drop_last());
        assert(log.skip(1).last() == log.last());
        assert(log_bytes(log) =~= logged_bytes(log[0]) + log_bytes(log.skip(1)));
    }
}

/// The block of a record is read back as that record.
proof fn lemma_logged_of(l: Logged)
    requires
        encodable(l.1),
    ensures
        logged_bytes(l).len() == BLOCK_SIZE,
        logged_of(logged_bytes(l)) == Some(l),
{
    reveal(logged_bytes);
    reveal(logged_of);
    let payload = record_bytes(l.1);
    lemma_decode_encode(l.0, payload, tag_of(l.1));
    lemma_decode_encode_record(l.1, Seq::empty());
    assert(payload + Seq::<u8>::empty() =~= payload);
}

/// A good block at the front is read, and scanning goes on behind it.
proof fn lemma_scan_step(first: Seq<u8>, l: Logged, rest: Seq<u8>)
    requires
        first.len() == BLOCK_SIZE,
        logged_of(first) == Some(l),
    ensures
        scan_of(first + rest) == seq![l] + scan_of(rest),
{
    let file = first + rest;
    assert(file.take(BLOCK_SIZE as int) =~= first);
    assert(file.skip(BLOCK_SIZE as int) =~= rest);
}

/// A log that was written is read back, followed by whatever the bytes after
/// it hold.
pub proof fn lemma_scan_log(log: Seq<Logged>, tail: Seq<u8>)
    requires
        log_encodable(log),
    ensures
        scan_of(log_bytes(log) + tail) == log + scan_of(tail),
    decreases log.len(),
{
    if log.len() == 0 {
        assert(log_bytes(log) + tail =~= tail);
        assert(log + scan_of(tail) =~= scan_of(tail));
    } else {
        let l = log[0];
        let rest = log.skip(1);
        let first = logged_bytes(l);
        assert(log_bytes(log) + tail =~= first + (log_bytes(rest) + tail)) by {
            lemma_log_bytes_front(log);
        }
        assert(first.len() == BLOCK_SIZE && logged_of(first) == Some(l)) by {
            lemma_logged_of(l);
        }
        lemma_scan_step(first, l, log_bytes(rest) + tail);
        assert forall|i: int| 0 <= i < rest.len() implies encodable((#[trigger] rest[i]).1) by {
            assert(rest[i] == log[i + 1]);
        }
        lemma_scan_log(rest, tail);
        assert(seq![l] + (rest + scan_of(tail)) =~= log + scan_of(tail));
    }
}

/// Replay never reads past damage: a torn or corrupt block ends it, whatever
/// follows.
pub proof fn lemma_scan_stops_at_damage(log: Seq<Logged>, damaged: Seq<u8>, after: Seq<u8>)
    requires
        log_encodable(log),
        damaged.len() <= BLOCK_SIZE,
        damaged.len() == BLOCK_SIZE ==> logged_of(damaged) is None,
        damaged.len() < BLOCK_SIZE ==> after.len() == 0,
    ensures
        scan_of(log_bytes(log) + damaged + after) == log,
{
    let tail = damaged + after;
    assert(log_bytes(log) + damaged + after =~= log_bytes(log) + tail);
    lemma_scan_log(log, tail);
    if damaged.len() == BLOCK_SIZE {
        assert(tail.take(BLOCK_SIZE as int) =~= damaged);
    }
    assert(log + scan_of(tail) =~= log);
}

/// Only committed records survive recovery: reopening a WAL file gives the
/// records up to the last `Commit` in it, and a second recovery changes
/// nothing more.
pub proof fn lemma_recovery_keeps_committed(log: Seq<Logged>)
    requires
        log_encodable(log),
    ensures
        committed_part(scan_of(log_bytes(log))) == committed_part(log),
        committed_part(log).is_prefix_of(log),
        committed_part(log).len() > 0 ==> committed_part(log).last().1 is Commit,
        forall|i: int| committed_part(log).len() <= i < log.len() ==> !((#[trigger] log[i]).1 is Commit),
        committed_part(committed_part(log)) == committed_part(log),
        scan_of(log_bytes(committed_part(log))) == committed_part(log),
{
    lemma_scan_log(log, Seq::empty());
    assert(log_bytes(log) + Seq::<u8>::empty() =~= log_bytes(log));
    assert(log + scan_of(Seq::empty()) =~= log);
    lemma_committed_len(log);
    let part = committed_part(log);
    lemma_committed_len_is(part, part.len());
    assert(committed_part(part) =~= part);
    lemma_scan_log(part, Seq::empty());
    assert(log_bytes(part) + Seq::<u8>::empty() =~= log_bytes(part));
    assert(part + scan_of(Seq::empty()) =~= part);
}

/// LSNs are not reused: after a log of increasing LSNs is recovered, the next
/// LSN is above all of them, those of discarded records too.
pub proof fn lemma_next_lsn_is_fresh(log: Seq<Logged>)
    requires
        forall|i: int, j: int| 0 <= i < j < log.len() ==> (#[trigger] log[i]).0 < (#[trigger] log[j]).0,
    ensures
        forall|i: int| 0 <= i < log.len() ==> (#[trigger] log[i]).0 < high_water_of(log) + 1,
{
    assert forall|i: int| 0 <= i < log.len() implies (#[trigger] log[i]).0 < high_water_of(log)
        + 1 by {
        if i < log.len() - 1 {
            assert(log[i].0 < log[log.len() - 1].0);
        }
    }
}

/// What a recovery finds: the records of the log, and the mark that the
/// recovery before it left.
pub ghost struct Found {
    pub log: Seq<Logged>,
    pub floor: u64,
}

/// One recovery after the other. LSNs grow along each log. What a later
/// recovery finds that the one before did not keep was logged in between, at
/// LSNs above the mark.
pub open spec fn recoveries(fs: Seq<Found>) -> bool {
    &&& forall|i: int, a: int, b: int|
        0 <= i < fs.len() && 0 <= a < b < fs[i].log.len() ==> (#[trigger] fs[i].log[a]).0 < (
        #[trigger] fs[i].log[b]).0
    &&& forall|i: int|
        0 < i < fs.len() ==> (#[trigger] fs[i]).floor == mark_after(
            fs[i - 1].log,
            fs[i - 1].floor,
        )
    &&& forall|i: int, a: int|
        0 < i < fs.len() && 0 <= a < fs[i].log.len() ==> committed_part(fs[i - 1].log).contains(
            #[trigger] fs[i].log[a],
        ) || fs[i].log[a].0 > fs[i].floor
}

/// LSNs are never reused, over any number of recoveries, with or without
/// writes in between: once a recovery has found a record, kept or discarded,
/// every later recovery goes on above its LSN, and what is logged after a
/// later recovery lies above it.
pub proof fn lemma_lsns_are_never_reused(fs: Seq<Found>, i: int, j: int, a: int)
    requires
        recoveries(fs),
        0 <= i <= j < fs.len(),
        0 <= a < fs[i].log.len(),
    ensures
        fs[i].log[a].0 < mark_after(fs[j].log, fs[j].floor) + 1,
        i < j ==> fs[i].log[a].0 <= fs[j].floor,
        i < j ==> forall|b: int|
            0 <= b < fs[j].log.len() && !committed_part(fs[j - 1].log).contains(
                #[trigger] fs[j].log[b],
            ) ==> fs[i].log[a].0 < fs[j].log[b].0,
    decreases j - i,
{
    if i < j {
        lemma_lsns_are_never_reused(fs, i, j - 1, a);
        assert(fs[j].floor == mark_after(fs[j - 1].log, fs[j - 1].floor));
    } else {
        let log = fs[i].log;
        if a < log.len() - 1 {
            assert(log[a].0 < log[log.len() - 1].0);
        }
    }
}

/// A `Commit` that reached the file keeps every record before it.
pub proof fn lemma_commit_covers(log: Seq<Logged>, i: int, later: Seq<Logged>)
    requires
        0 <= i < log.len(),
        log.last().1 is Commit,
    ensures
        committed_part(log + later).len() >= log.len(),
        committed_part(log + later)[i] == log[i],
{
    let all = log + later;
    lemma_committed_len(all);
    if committed_len(all) < log.len() {
        assert(all[log.len() - 1] == log.last());
    }
}

} // verus!
