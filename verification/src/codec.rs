//! How records are written: where in a payload each of their parts is, and that
//! only what was encoded is decoded.

use vstd::bytes::*;
use vstd::prelude::*;
use vstd::utf8::{decode_utf8_encode_utf8, encode_utf8};

use crate::block::{block_of, lemma_decode_encode, BLOCK_SIZE};
use crate::rollup::DeltaModel;
use crate::wal::{
    delta_bytes, deltas_bytes, encodable, entries_bytes, entry_bytes, lemma_deltas_bytes_front,
    lemma_entries_bytes_front, lemma_le_lengths, logged_bytes, parse_body, parse_bytes, parse_delta,
    parse_deltas, parse_entries, parse_entry, parse_pair, parse_text, parse_u16, parse_u32,
    parse_u64, record_bytes, record_of, tag_of, text_bytes, EntryModel, Logged, RecordModel,
};

verus! {

proof fn lemma_bytes_back(p: Seq<u8>, n: nat)
    ensures
        parse_bytes(p, n) matches Ok((b, rest)) ==> b.len() == n && p == b + rest,
{
    if p.len() >= n {
        assert(p =~= p.take(n as int) + p.skip(n as int));
    }
}

proof fn lemma_u64_back(p: Seq<u8>)
    ensures
        parse_u64(p) matches Ok((v, rest)) ==> p == spec_u64_to_le_bytes(v) + rest,
{
    lemma_bytes_back(p, 8);
    lemma_auto_spec_u64_to_from_le_bytes();
    if let Ok((b, rest)) = parse_bytes(p, 8) {
        assert(spec_u64_to_le_bytes(spec_u64_from_le_bytes(b)) == b);
    }
}

proof fn lemma_u32_back(p: Seq<u8>)
    ensures
        parse_u32(p) matches Ok((v, rest)) ==> p == spec_u32_to_le_bytes(v) + rest,
{
    lemma_bytes_back(p, 4);
    lemma_auto_spec_u32_to_from_le_bytes();
    if let Ok((b, rest)) = parse_bytes(p, 4) {
        assert(spec_u32_to_le_bytes(spec_u32_from_le_bytes(b)) == b);
    }
}

proof fn lemma_u16_back(p: Seq<u8>)
    ensures
        parse_u16(p) matches Ok((v, rest)) ==> p == spec_u16_to_le_bytes(v) + rest,
{
    lemma_bytes_back(p, 2);
    lemma_auto_spec_u16_to_from_le_bytes();
    if let Ok((b, rest)) = parse_bytes(p, 2) {
        assert(spec_u16_to_le_bytes(spec_u16_from_le_bytes(b)) == b);
    }
}

proof fn lemma_text_back(p: Seq<u8>, what: Seq<char>)
    ensures
        parse_text(p, what) matches Ok((s, rest)) ==> p == text_bytes(s) + rest,
{
    lemma_u16_back(p);
    if let Ok((n, p1)) = parse_u16(p) {
        lemma_bytes_back(p1, n as nat);
        if let Ok((s, rest)) = parse_text(p, what) {
            let b = p1.take(n as int);
            decode_utf8_encode_utf8(b);
            assert(encode_utf8(s) == b);
            assert(text_bytes(s) + rest =~= spec_u16_to_le_bytes(n) + (b + rest));
        }
    }
}

proof fn lemma_delta_back(p: Seq<u8>)
    ensures
        parse_delta(p) matches Ok((d, rest)) ==> p == delta_bytes(d) + rest,
{
    lemma_text_back(p, "prefix"@);
    if let Ok((prefix, p1)) = parse_text(p, "prefix"@) {
        lemma_u64_back(p1);
        if let Ok((n, p2)) = parse_u64(p1) {
            lemma_u64_back(p2);
            if let Ok((m, p3)) = parse_u64(p2) {
                let d = DeltaModel { prefix, object_count_delta: n, byte_count_delta: m };
                assert(p =~= delta_bytes(d) + p3);
            }
        }
    }
}

proof fn lemma_entry_back(p: Seq<u8>)
    ensures
        parse_entry(p) matches Ok((e, rest)) ==> p == entry_bytes(e) + rest,
{
    lemma_text_back(p, "key"@);
    if let Ok((key, p1)) = parse_text(p, "key"@) {
        lemma_u64_back(p1);
        if let Ok((lsn, p2)) = parse_u64(p1) {
            lemma_u64_back(p2);
            if let Ok((offset, p3)) = parse_u64(p2) {
                lemma_u32_back(p3);
                if let Ok((len, p4)) = parse_u32(p3) {
                    assert(p =~= entry_bytes(EntryModel { key, lsn, offset, len }) + p4);
                }
            }
        }
    }
}

proof fn lemma_deltas_back(p: Seq<u8>, n: nat)
    ensures
        parse_deltas(p, n) matches Ok((ds, rest)) ==> ds.len() == n && p == deltas_bytes(ds) + rest,
    decreases n,
{
    if n == 0 {
        assert(p =~= deltas_bytes(Seq::empty()) + p);
    } else {
        lemma_delta_back(p);
        if let Ok((d, p1)) = parse_delta(p) {
            lemma_deltas_back(p1, (n - 1) as nat);
            if let Ok((ds, rest)) = parse_deltas(p1, (n - 1) as nat) {
                let all = seq![d] + ds;
                lemma_deltas_bytes_front(all);
                assert(all.skip(1) =~= ds);
                assert(p =~= deltas_bytes(all) + rest);
            }
        }
    }
}

proof fn lemma_entries_back(p: Seq<u8>, n: nat)
    ensures
        parse_entries(p, n) matches Ok((es, rest)) ==> es.len() == n && p == entries_bytes(es)
            + rest,
    decreases n,
{
    if n == 0 {
        assert(p =~= entries_bytes(Seq::empty()) + p);
    } else {
        lemma_entry_back(p);
        if let Ok((e, p1)) = parse_entry(p) {
            lemma_entries_back(p1, (n - 1) as nat);
            if let Ok((es, rest)) = parse_entries(p1, (n - 1) as nat) {
                let all = seq![e] + es;
                lemma_entries_bytes_front(all);
                assert(all.skip(1) =~= es);
                assert(p =~= entries_bytes(all) + rest);
            }
        }
    }
}

proof fn lemma_pair_back(p: Seq<u8>)
    ensures
        parse_pair(p) matches Ok(((a, b), rest)) ==> p == spec_u64_to_le_bytes(a) + (
        spec_u64_to_le_bytes(b) + rest),
{
    lemma_u64_back(p);
    if let Ok((a, p1)) = parse_u64(p) {
        lemma_u64_back(p1);
    }
}

proof fn lemma_body_back(tag: u8, p: Seq<u8>)
    ensures
        parse_body(tag, p) matches Ok((rec, rest)) ==> tag == tag_of(rec) && seq![tag] + p
            == record_bytes(rec) + rest,
{
    lemma_u64_back(p);
    lemma_u16_back(p);
    lemma_pair_back(p);
    if let Ok((rec, rest)) = parse_body(tag, p) {
        match rec {
            RecordModel::Put { key, len, stripe_id } => {
                let p1 = p.skip(8);
                lemma_u32_back(p1);
                lemma_text_back(p1.skip(4), "key"@);
            },
            RecordModel::AggDelta { deltas } => {
                lemma_deltas_back(p.skip(2), parse_u16(p)->Ok_0.0 as nat);
            },
            RecordModel::SegmentRemap { new_segment_id, entries } => {
                let p1 = p.skip(8);
                lemma_u16_back(p1);
                lemma_entries_back(p1.skip(2), parse_u16(p1)->Ok_0.0 as nat);
            },
            _ => {},
        }
        assert(seq![tag] + p =~= record_bytes(rec) + rest);
    }
}

/// A payload that is read as a record starts with the bytes of that record; no
/// other payload is read as one. So payloads without anything behind the record
/// stand for different records if they differ.
pub proof fn lemma_only_records_are_decoded(payload: Seq<u8>)
    ensures
        record_of(payload) matches Ok(rec) ==> record_bytes(rec).is_prefix_of(payload),
{
    lemma_bytes_back(payload, 1);
    if let Ok((tag, rest)) = parse_bytes(payload, 1) {
        lemma_body_back(tag[0], rest);
        assert(tag =~= seq![tag[0]]);
        if let Ok((rec, more)) = parse_body(tag[0], rest) {
            assert(payload == record_bytes(rec) + more);
            assert(payload.take(record_bytes(rec).len() as int) =~= record_bytes(rec));
        }
    }
}

/// The first byte of a record tells its kind, and its numbers follow in a fixed
/// place, little-endian. Text, and the entries of a list, have their number in
/// front of them.
pub proof fn lemma_record_layout(rec: RecordModel)
    ensures
        ({
            let b = record_bytes(rec);
            match rec {
                RecordModel::Put { key, len, stripe_id } => {
                    &&& b[0] == 0
                    &&& spec_u64_from_le_bytes(b.subrange(1, 9)) == stripe_id
                    &&& spec_u32_from_le_bytes(b.subrange(9, 13)) == len
                    &&& b.skip(13) == text_bytes(key)
                },
                RecordModel::Commit { lsn } => {
                    &&& b[0] == 1
                    &&& b.len() == 9
                    &&& spec_u64_from_le_bytes(b.subrange(1, 9)) == lsn
                },
                RecordModel::SegmentSeal { segment_id, next_segment_id } => {
                    &&& b[0] == 2
                    &&& b.len() == 17
                    &&& spec_u64_from_le_bytes(b.subrange(1, 9)) == segment_id
                    &&& spec_u64_from_le_bytes(b.subrange(9, 17)) == next_segment_id
                },
                RecordModel::AggDelta { deltas } => {
                    &&& b[0] == 3
                    &&& spec_u16_from_le_bytes(b.subrange(1, 3)) == deltas.len() as u16
                    &&& b.skip(3) == deltas_bytes(deltas)
                },
                RecordModel::SegmentSwap { old_segment_id, new_segment_id } => {
                    &&& b[0] == 4
                    &&& b.len() == 17
                    &&& spec_u64_from_le_bytes(b.subrange(1, 9)) == old_segment_id
                    &&& spec_u64_from_le_bytes(b.subrange(9, 17)) == new_segment_id
                },
                RecordModel::SegmentRemap { new_segment_id, entries } => {
                    &&& b[0] == 5
                    &&& spec_u64_from_le_bytes(b.subrange(1, 9)) == new_segment_id
                    &&& spec_u16_from_le_bytes(b.subrange(9, 11)) == entries.len() as u16
                    &&& b.skip(11) == entries_bytes(entries)
                },
            }
        }),
{
    lemma_le_lengths();
    let b = record_bytes(rec);
    match rec {
        RecordModel::Put { key, len, stripe_id } => {
            assert(b.subrange(1, 9) =~= spec_u64_to_le_bytes(stripe_id));
            assert(b.subrange(9, 13) =~= spec_u32_to_le_bytes(len));
            assert(b.skip(13) =~= text_bytes(key));
        },
        RecordModel::Commit { lsn } => {
            assert(b.subrange(1, 9) =~= spec_u64_to_le_bytes(lsn));
        },
        RecordModel::SegmentSeal { segment_id, next_segment_id } => {
            assert(b.subrange(1, 9) =~= spec_u64_to_le_bytes(segment_id));
            assert(b.subrange(9, 17) =~= spec_u64_to_le_bytes(next_segment_id));
        },
        RecordModel::AggDelta { deltas } => {
            assert(b.subrange(1, 3) =~= spec_u16_to_le_bytes(deltas.len() as u16));
            assert(b.skip(3) =~= deltas_bytes(deltas));
        },
        RecordModel::SegmentSwap { old_segment_id, new_segment_id } => {
            assert(b.subrange(1, 9) =~= spec_u64_to_le_bytes(old_segment_id));
            assert(b.subrange(9, 17) =~= spec_u64_to_le_bytes(new_segment_id));
        },
        RecordModel::SegmentRemap { new_segment_id, entries } => {
            assert(b.subrange(1, 9) =~= spec_u64_to_le_bytes(new_segment_id));
            assert(b.subrange(9, 11) =~= spec_u16_to_le_bytes(entries.len() as u16));
            assert(b.skip(11) =~= entries_bytes(entries));
        },
    }
}

/// Text is its length in bytes and its bytes. A delta is its prefix and two
/// numbers, and a moved value its key, two numbers and a length; lists of them
/// are one after the other.
pub proof fn lemma_entry_layout(
    text: Seq<char>,
    d: DeltaModel,
    ds: Seq<DeltaModel>,
    e: EntryModel,
    es: Seq<EntryModel>,
)
    ensures
        ({
            let b = text_bytes(text);
            &&& b.len() == 2 + encode_utf8(text).len()
            &&& spec_u16_from_le_bytes(b.take(2)) == encode_utf8(text).len() as u16
            &&& b.skip(2) == encode_utf8(text)
        }),
        ({
            let b = delta_bytes(d);
            let n = text_bytes(d.prefix).len() as int;
            &&& b.len() == n + 16
            &&& b.take(n) == text_bytes(d.prefix)
            &&& spec_u64_from_le_bytes(b.subrange(n, n + 8)) == d.object_count_delta
            &&& spec_u64_from_le_bytes(b.subrange(n + 8, n + 16)) == d.byte_count_delta
        }),
        ({
            let b = entry_bytes(e);
            let n = text_bytes(e.key).len() as int;
            &&& b.len() == n + 20
            &&& b.take(n) == text_bytes(e.key)
            &&& spec_u64_from_le_bytes(b.subrange(n, n + 8)) == e.lsn
            &&& spec_u64_from_le_bytes(b.subrange(n + 8, n + 16)) == e.offset
            &&& spec_u32_from_le_bytes(b.subrange(n + 16, n + 20)) == e.len
        }),
        deltas_bytes(seq![d] + ds) == delta_bytes(d) + deltas_bytes(ds),
        entries_bytes(seq![e] + es) == entry_bytes(e) + entries_bytes(es),
{
    lemma_le_lengths();
    let t = text_bytes(text);
    assert(t.take(2) =~= spec_u16_to_le_bytes(encode_utf8(text).len() as u16));
    assert(t.skip(2) =~= encode_utf8(text));
    let b = delta_bytes(d);
    let n = text_bytes(d.prefix).len() as int;
    assert(b.take(n) =~= text_bytes(d.prefix));
    assert(b.subrange(n, n + 8) =~= spec_u64_to_le_bytes(d.object_count_delta));
    assert(b.subrange(n + 8, n + 16) =~= spec_u64_to_le_bytes(d.byte_count_delta));
    let c = entry_bytes(e);
    let m = text_bytes(e.key).len() as int;
    assert(c.take(m) =~= text_bytes(e.key));
    assert(c.subrange(m, m + 8) =~= spec_u64_to_le_bytes(e.lsn));
    assert(c.subrange(m + 8, m + 16) =~= spec_u64_to_le_bytes(e.offset));
    assert(c.subrange(m + 16, m + 20) =~= spec_u32_to_le_bytes(e.len));
    lemma_deltas_bytes_front(seq![d] + ds);
    assert((seq![d] + ds).skip(1) =~= ds);
    lemma_entries_bytes_front(seq![e] + es);
    assert((seq![e] + es).skip(1) =~= es);
}

/// A record is logged in one block, with its LSN, and with its kind in the flags
/// of the block as well as in front of the record.
pub proof fn lemma_logged_block(l: Logged)
    requires
        encodable(l.1),
    ensures
        logged_bytes(l).len() == BLOCK_SIZE,
        block_of(logged_bytes(l)) matches Ok(b) && b.lsn == l.0 && b.payload == record_bytes(l.1)
            && b.flags == record_bytes(l.1)[0],
{
    reveal(logged_bytes);
    lemma_decode_encode(l.0, record_bytes(l.1), tag_of(l.1));
}

} // verus!
