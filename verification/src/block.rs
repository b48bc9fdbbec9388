//! The on-disk block format.
//!
//! Each block is 4096 bytes: a 24-byte little-endian header followed by up to
//! 4072 bytes of payload. The header is `u64 lsn`, `u32 payload_len`,
//! `u32 crc32c`, `u8 flags`, `u8 pad[3]` plus 4 bytes of tail padding. The
//! CRC-32C (Castagnoli, poly 0x82F63B78) covers the header with the CRC field
//! zeroed plus the payload.

use vstd::bytes::*;
use vstd::prelude::*;
use vstd::string::*;

use crate::text::{signed_decimal, signed_digits};

verus! {

pub const BLOCK_SIZE: usize = 4096;

pub const HEADER_SIZE: usize = 24;

pub const PAYLOAD_MAX: usize = 4072;

const SV_OK: i32 = 0;

const SV_ERR_INVAL: i32 = -1;

const SV_ERR_CRC: i32 = -2;

const SV_ERR_LEN: i32 = -3;

const CRC_POLY: u32 = 0x82F63B78;

#[derive(Debug, Clone, Copy, PartialEq, Eq)]
pub enum BlockError {
    Invalid,
    Crc,
    Len,
    Other(i32),
}

impl BlockError {
    pub open spec fn spec_message(&self) -> Seq<char> {
        match self {
            BlockError::Invalid => "invalid argument"@,
            BlockError::Crc => "CRC-32C verification failed"@,
            BlockError::Len => "payload length out of range"@,
            BlockError::Other(code) => "unknown C error code: "@ + signed_digits(*code as int),
        }
    }

    /// The error in words.
    pub fn message(&self) -> (text: String)
        ensures
            text@ == self.spec_message(),
    {
        match self {
            BlockError::Invalid => "invalid argument".to_string(),
            BlockError::Crc => "CRC-32C verification failed".to_string(),
            BlockError::Len => "payload length out of range".to_string(),
            BlockError::Other(code) => {
                let mut text = "unknown C error code: ".to_string();
                text.append(signed_decimal(*code).as_str());
                text
            },
        }
    }
}

#[derive(Debug, Clone, PartialEq, Eq)]
pub struct Block {
    pub lsn: u64,
    pub flags: u8,
    pub payload: Vec<u8>,
}

/// The contents of a block.
#[verifier::ext_equal]
pub ghost struct BlockModel {
    pub lsn: u64,
    pub flags: u8,
    pub payload: Seq<u8>,
}

impl View for Block {
    type V = BlockModel;

    open spec fn view(&self) -> BlockModel {
        BlockModel { lsn: self.lsn, flags: self.flags, payload: self.payload@ }
    }
}

/// One bit of the CRC shift register.
pub open spec fn crc_bit(c: u32) -> u32 {
    if c & 1 != 0 {
        (c >> 1) ^ 0x82F63B78u32
    } else {
        c >> 1
    }
}

/// `n` bits of the CRC shift register.
pub open spec fn crc_bits(c: u32, n: nat) -> u32
    decreases n,
{
    if n == 0 {
        c
    } else {
        crc_bit(crc_bits(c, (n - 1) as nat))
    }
}

/// One byte of the CRC.
pub open spec fn crc_byte(c: u32, b: u8) -> u32 {
    crc_bits(c ^ (b as u32), 8)
}

/// The CRC register after all of `s`, from `init`.
pub open spec fn crc_fold(init: u32, s: Seq<u8>) -> u32
    decreases s.len(),
{
    if s.len() == 0 {
        init
    } else {
        crc_byte(crc_fold(init, s.drop_last()), s.last())
    }
}

/// CRC-32C (Castagnoli).
pub open spec fn crc_of(s: Seq<u8>) -> u32 {
    crc_fold(0xFFFF_FFFF, s) ^ 0xFFFF_FFFFu32
}

/// `n` zero bytes.
pub open spec fn zeros(n: nat) -> Seq<u8> {
    Seq::new(n, |i: int| 0u8)
}

/// The 24 header bytes.
pub open spec fn header(lsn: u64, len: u32, crc: u32, flags: u8) -> Seq<u8> {
    spec_u64_to_le_bytes(lsn) + spec_u32_to_le_bytes(len) + spec_u32_to_le_bytes(crc) + seq![flags]
        + zeros(7)
}

/// The CRC that a block's header carries.
pub open spec fn block_crc(lsn: u64, payload: Seq<u8>, flags: u8) -> u32 {
    crc_of(header(lsn, payload.len() as u32, 0, flags) + payload)
}

/// The bytes of a block.
pub open spec fn block_bytes(lsn: u64, payload: Seq<u8>, flags: u8) -> Seq<u8> {
    header(lsn, payload.len() as u32, block_crc(lsn, payload, flags), flags) + payload + zeros(
        (PAYLOAD_MAX - payload.len()) as nat,
    )
}

/// The bytes of a block that its CRC covers: the header, with zero for the
/// CRC field, and the payload.
pub open spec fn covered(b: Seq<u8>, len: int) -> Seq<u8> {
    b.subrange(0, 12) + spec_u32_to_le_bytes(0) + b.subrange(16, HEADER_SIZE + len)
}

/// The length field of a block.
pub open spec fn len_field(b: Seq<u8>) -> u32 {
    spec_u32_from_le_bytes(b.subrange(8, 12))
}

/// The CRC field of a block.
pub open spec fn crc_field(b: Seq<u8>) -> u32 {
    spec_u32_from_le_bytes(b.subrange(12, 16))
}

/// What a block of 4096 bytes decodes to.
pub open spec fn block_of(b: Seq<u8>) -> Result<BlockModel, BlockError> {
    let len = len_field(b);
    if len > PAYLOAD_MAX {
        Err(BlockError::Len)
    } else if crc_field(b) != crc_of(covered(b, len as int)) {
        Err(BlockError::Crc)
    } else {
        Ok(
            BlockModel {
                lsn: spec_u64_from_le_bytes(b.subrange(0, 8)),
                flags: b[16],
                payload: b.subrange(HEADER_SIZE as int, HEADER_SIZE + len),
            },
        )
    }
}

pub fn crc32c(buf: &[u8]) -> (crc: u32)
    ensures
        crc == crc_of(buf@),
{
    let mut c: u32 = 0xFFFF_FFFF;
    for i in 0..buf.len()
        invariant
            c == crc_fold(0xFFFF_FFFF, buf@.take(i as int)),
    {
        assert(buf@.take(i + 1).drop_last() =~= buf@.take(i as int));
        c = crc_step(c, buf[i]);
    }
    assert(buf@.take(buf@.len() as int) =~= buf@);
    c ^ 0xFFFF_FFFF
}

fn crc_step(crc: u32, b: u8) -> (c: u32)
    ensures
        c == crc_byte(crc, b),
{
    let mut c: u32 = crc ^ (b as u32);
    for n in 0..8usize
        invariant
            c == crc_bits(crc ^ (b as u32), n as nat),
    {
        c = if c & 1 != 0 {
            (c >> 1) ^ CRC_POLY
        } else {
            c >> 1
        };
    }
    c
}

/// The error that a status code stands for, if it stands for one.
pub open spec fn rc_error(rc: i32) -> Option<BlockError> {
    if rc == 0 {
        None
    } else if rc == -1 {
        Some(BlockError::Invalid)
    } else if rc == -2 {
        Some(BlockError::Crc)
    } else if rc == -3 {
        Some(BlockError::Len)
    } else {
        Some(BlockError::Other(rc))
    }
}

/// Only the status code zero is no error, and no two codes stand for the same
/// error.
pub proof fn lemma_status_codes_differ(a: i32, b: i32)
    ensures
        rc_error(a) is None <==> a == 0,
        rc_error(a) == rc_error(b) ==> a == b,
        rc_error(a) matches Some(BlockError::Other(code)) ==> code == a,
{
}

/// The outcome that a status code stands for.
pub fn rc_to_result(rc: i32) -> (res: Result<(), BlockError>)
    ensures
        res == (match rc_error(rc) {
            None => Ok::<(), BlockError>(()),
            Some(e) => Err(e),
        }),
{
    if rc == SV_OK {
        Ok(())
    } else if rc == SV_ERR_INVAL {
        Err(BlockError::Invalid)
    } else if rc == SV_ERR_CRC {
        Err(BlockError::Crc)
    } else if rc == SV_ERR_LEN {
        Err(BlockError::Len)
    } else {
        Err(BlockError::Other(rc))
    }
}

proof fn lemma_lengths()
    ensures
        forall|x: u64| #[trigger] spec_u64_to_le_bytes(x).len() == 8,
        forall|x: u32| #[trigger] spec_u32_to_le_bytes(x).len() == 4,
        forall|x: u64| spec_u64_from_le_bytes(#[trigger] spec_u64_to_le_bytes(x)) == x,
        forall|x: u32| spec_u32_from_le_bytes(#[trigger] spec_u32_to_le_bytes(x)) == x,
{
    lemma_auto_spec_u64_to_from_le_bytes();
    lemma_auto_spec_u32_to_from_le_bytes();
    assert forall|x: u32| spec_u32_from_le_bytes(#[trigger] spec_u32_to_le_bytes(x)) == x by {
        assert(spec_u32_to_le_bytes(x).len() == 4);
    }
}

/// Encodes one block.
pub fn encode(lsn: u64, payload: &[u8], flags: u8) -> (res: Result<[u8; BLOCK_SIZE], BlockError>)
    ensures
        match res {
            Ok(out) => payload@.len() <= PAYLOAD_MAX && out@ == block_bytes(lsn, payload@, flags),
            Err(e) => payload@.len() > PAYLOAD_MAX && e == BlockError::Len,
        },
{
    if payload.len() > PAYLOAD_MAX {
        return Err(BlockError::Len);
    }
    let len: u32 = payload.len() as u32;
    proof {
        lemma_lengths();
    }
    let mut head: Vec<u8> = Vec::new();
    head.extend_from_slice(u64_to_le_bytes(lsn).as_slice());
    head.extend_from_slice(u32_to_le_bytes(len).as_slice());
    let mut bytes: Vec<u8> = head.clone();
    let mut covered_bytes: Vec<u8> = head;
    covered_bytes.extend_from_slice(u32_to_le_bytes(0).as_slice());
    let tail: [u8; 8] = [flags, 0, 0, 0, 0, 0, 0, 0];
    covered_bytes.extend_from_slice(&tail);
    covered_bytes.extend_from_slice(payload);
    proof {
        assert(tail@ =~= seq![flags] + zeros(7));
        assert(covered_bytes@ =~= header(lsn, len, 0, flags) + payload@);
    }
    let crc: u32 = crc32c(covered_bytes.as_slice());
    bytes.extend_from_slice(u32_to_le_bytes(crc).as_slice());
    bytes.extend_from_slice(&tail);
    bytes.extend_from_slice(payload);
    assert(bytes@ =~= header(lsn, len, crc, flags) + payload@);
    let mut out: [u8; BLOCK_SIZE] = [0u8; BLOCK_SIZE];
    for i in 0..bytes.len()
        invariant
            bytes@.len() == HEADER_SIZE + payload@.len(),
            payload@.len() <= PAYLOAD_MAX,
            forall|j: int|
                0 <= j < BLOCK_SIZE ==> #[trigger] out@[j] == (if j < i {
                    bytes@[j]
                } else {
                    0
                }),
    {
        out[i] = bytes[i];
    }
    assert(out@ =~= block_bytes(lsn, payload@, flags));
    Ok(out)
}

/// The block at `at` of a file.
pub(crate) fn block_at(file: &[u8], at: usize) -> (blk: [u8; BLOCK_SIZE])
    requires
        at + BLOCK_SIZE <= file@.len(),
    ensures
        blk@ == file@.skip(at as int).take(BLOCK_SIZE as int),
{
    let mut blk: [u8; BLOCK_SIZE] = [0u8; BLOCK_SIZE];
    for i in 0..BLOCK_SIZE
        invariant
            at + BLOCK_SIZE <= file.len(),
            forall|j: int| 0 <= j < i ==> #[trigger] blk@[j] == file@[at + j],
    {
        blk[i] = file[at + i];
    }
    assert(blk@ =~= file@.skip(at as int).take(BLOCK_SIZE as int));
    blk
}

/// The status of a block: whether its length field is in range and its CRC
/// matches.
fn check(blk: &[u8; BLOCK_SIZE]) -> (rc: i32)
    ensures
        rc == (match block_of(blk@) {
            Ok(_) => 0i32,
            Err(BlockError::Len) => -3i32,
            Err(_) => -2i32,
        }),
{
    let len: u32 = u32_from_le_bytes(&blk[8..12]);
    if len as usize > PAYLOAD_MAX {
        return SV_ERR_LEN;
    }
    let mut bytes: Vec<u8> = Vec::new();
    bytes.extend_from_slice(&blk[0..12]);
    bytes.extend_from_slice(u32_to_le_bytes(0).as_slice());
    bytes.extend_from_slice(&blk[16..HEADER_SIZE + len as usize]);
    assert(bytes@ =~= covered(blk@, len as int));
    if u32_from_le_bytes(&blk[12..16]) != crc32c(bytes.as_slice()) {
        return SV_ERR_CRC;
    }
    SV_OK
}

/// Decodes one block, after checking its length field and its CRC.
pub fn decode(blk: &[u8; BLOCK_SIZE]) -> (res: Result<Block, BlockError>)
    ensures
        match res {
            Ok(b) => block_of(blk@) == Ok::<BlockModel, BlockError>(b@),
            Err(e) => block_of(blk@) == Err::<BlockModel, BlockError>(e),
        },
{
    match rc_to_result(check(blk)) {
        Ok(()) => {},
        Err(e) => {
            return Err(e);
        },
    }
    let len: u32 = u32_from_le_bytes(&blk[8..12]);
    let mut payload: Vec<u8> = Vec::new();
    payload.extend_from_slice(&blk[HEADER_SIZE..HEADER_SIZE + len as usize]);
    assert(payload@ =~= blk@.subrange(HEADER_SIZE as int, HEADER_SIZE + len));
    Ok(Block { lsn: u64_from_le_bytes(&blk[0..8]), flags: blk[16], payload })
}

/// Decoding gives back what was encoded.
pub proof fn lemma_decode_encode(lsn: u64, payload: Seq<u8>, flags: u8)
    requires
        payload.len() <= PAYLOAD_MAX,
    ensures
        block_bytes(lsn, payload, flags).len() == BLOCK_SIZE,
        block_of(block_bytes(lsn, payload, flags)) == Ok::<BlockModel, BlockError>(
            BlockModel { lsn, flags, payload },
        ),
{
    lemma_lengths();
    let b = block_bytes(lsn, payload, flags);
    let len = payload.len() as u32;
    let crc = block_crc(lsn, payload, flags);
    assert(b.subrange(0, 8) =~= spec_u64_to_le_bytes(lsn));
    assert(b.subrange(8, 12) =~= spec_u32_to_le_bytes(len));
    assert(b.subrange(12, 16) =~= spec_u32_to_le_bytes(crc));
    assert(covered(b, len as int) =~= header(lsn, len, 0, flags) + payload);
    assert(b.subrange(HEADER_SIZE as int, HEADER_SIZE + len) =~= payload);
}

proof fn lemma_crc_bit_injective(a: u32, b: u32)
    by (bit_vector)
    requires
        a != b,
    ensures
        crc_bit(a) != crc_bit(b),
{
}

proof fn lemma_crc_bits_injective(a: u32, b: u32, n: nat)
    requires
        a != b,
    ensures
        crc_bits(a, n) != crc_bits(b, n),
    decreases n,
{
    if n > 0 {
        lemma_crc_bits_injective(a, b, (n - 1) as nat);
        lemma_crc_bit_injective(crc_bits(a, (n - 1) as nat), crc_bits(b, (n - 1) as nat));
    }
}

proof fn lemma_xor_injective(a: u32, b: u32, x: u8, y: u8)
    by (bit_vector)
    ensures
        a != b ==> a ^ (x as u32) != b ^ (x as u32),
        x != y ==> a ^ (x as u32) != a ^ (y as u32),
        a != b ==> a ^ 0xFFFF_FFFFu32 != b ^ 0xFFFF_FFFFu32,
{
}

/// `r` is a shift register of 32 bits over eight steps. In each of them the
/// lowest bit drops out, and one that is set is made up for by the Castagnoli
/// polynomial.
pub open spec fn shifts(r: Seq<u32>) -> bool {
    r.len() == 9 && forall|i: int|
        0 <= i < 8 ==> #[trigger] r[i + 1] == (if r[i] % 2 == 1 {
            (r[i] / 2) ^ 0x82F63B78u32
        } else {
            r[i] / 2
        })
}

/// The CRC is that of a shift register into which byte after byte goes, the
/// lowest bit first: it starts with all bits set, and all bits are flipped at
/// the end.
pub proof fn lemma_crc_is_shift_register(s: Seq<u8>, b: u8)
    ensures
        crc_of(Seq::empty()) == 0,
        exists|r: Seq<u32>|
            #[trigger] shifts(r) && r[0] == (crc_of(s) ^ 0xFFFF_FFFFu32) ^ (b as u32) && crc_of(
                s.push(b),
            ) == r[8] ^ 0xFFFF_FFFFu32,
{
    let all = 0xFFFF_FFFFu32;
    assert(all ^ all == 0) by (bit_vector)
        requires
            all == 0xFFFF_FFFFu32,
    ;
    let c = crc_fold(all, s);
    let x = c ^ (b as u32);
    assert(s.push(b).drop_last() =~= s);
    assert((c ^ 0xFFFF_FFFFu32) ^ 0xFFFF_FFFFu32 == c) by (bit_vector);
    let r = Seq::new(9, |i: int| crc_bits(x, i as nat));
    assert forall|i: int| 0 <= i < 8 implies #[trigger] r[i + 1] == (if r[i] % 2 == 1 {
        (r[i] / 2) ^ 0x82F63B78u32
    } else {
        r[i] / 2
    }) by {
        let v = r[i];
        assert(v & 1 != 0 <==> v % 2 == 1) by (bit_vector);
        assert(v >> 1 == v / 2) by (bit_vector);
        assert(r[i + 1] == crc_bit(r[i]));
    }
    assert(shifts(r));
    assert(r[8] == crc_byte(c, b));
}

/// Strings of one length that differ in one byte have different CRCs.
pub proof fn lemma_crc_detects_one_byte(a: Seq<u8>, b: Seq<u8>, p: int)
    requires
        a.len() == b.len(),
        0 <= p < a.len(),
        a[p] != b[p],
        forall|i: int| 0 <= i < a.len() && i != p ==> a[i] == b[i],
    ensures
        crc_of(a) != crc_of(b),
{
    lemma_fold_detects(0xFFFF_FFFF, a, b, p);
    lemma_xor_injective(crc_fold(0xFFFF_FFFF, a), crc_fold(0xFFFF_FFFF, b), 0, 0);
}

proof fn lemma_fold_detects(init: u32, a: Seq<u8>, b: Seq<u8>, p: int)
    requires
        a.len() == b.len(),
        0 <= p < a.len(),
        a[p] != b[p],
        forall|i: int| 0 <= i < a.len() && i != p ==> a[i] == b[i],
    ensures
        crc_fold(init, a) != crc_fold(init, b),
    decreases a.len(),
{
    let ca = crc_fold(init, a.drop_last());
    let cb = crc_fold(init, b.drop_last());
    if p == a.len() - 1 {
        assert(a.drop_last() =~= b.drop_last());
        lemma_xor_injective(ca, ca, a.last(), b.last());
        lemma_crc_bits_injective(ca ^ (a.last() as u32), ca ^ (b.last() as u32), 8);
    } else {
        lemma_fold_detects(init, a.drop_last(), b.drop_last(), p);
        lemma_xor_injective(ca, cb, a.last(), a.last());
        lemma_crc_bits_injective(ca ^ (a.last() as u32), cb ^ (a.last() as u32), 8);
    }
}

/// A block whose header or payload was damaged in one byte is refused. The
/// CRC of a good block does not match once any one byte of its header or
/// payload, other than those of the length field, has changed. Damage to the
/// length field changes which bytes the CRC covers: it is noticed unless the
/// field is still in range and the CRC of the other bytes happens to be the
/// same.
pub proof fn lemma_damage_detected(good: Seq<u8>, bad: Seq<u8>, p: int)
    requires
        good.len() == BLOCK_SIZE,
        bad.len() == BLOCK_SIZE,
        block_of(good) is Ok,
        0 <= p < HEADER_SIZE + len_field(good),
        good[p] != bad[p],
        forall|i: int| 0 <= i < BLOCK_SIZE && i != p ==> good[i] == bad[i],
        8 <= p < 12 && len_field(bad) <= PAYLOAD_MAX ==> crc_of(
            covered(bad, len_field(bad) as int),
        ) != crc_field(good),
    ensures
        block_of(bad) is Err,
        !(8 <= p < 12) ==> block_of(bad) == Err::<BlockModel, BlockError>(BlockError::Crc),
{
    lemma_lengths();
    let len = len_field(good) as int;
    if 8 <= p < 12 {
        assert(bad.subrange(12, 16) =~= good.subrange(12, 16));
    } else {
        assert(bad.subrange(8, 12) =~= good.subrange(8, 12));
    }
    let ca = covered(good, len);
    let cb = covered(bad, len);
    if 12 <= p < 16 {
        assert(ca =~= cb);
        lemma_auto_spec_u32_to_from_le_bytes();
        let fa = good.subrange(12, 16);
        let fb = bad.subrange(12, 16);
        assert(fa[p - 12] != fb[p - 12]);
        assert(spec_u32_to_le_bytes(spec_u32_from_le_bytes(fa)) == fa);
        assert(spec_u32_to_le_bytes(spec_u32_from_le_bytes(fb)) == fb);
    } else if !(8 <= p < 12) {
        assert(bad.subrange(12, 16) =~= good.subrange(12, 16));
        assert forall|i: int| 0 <= i < ca.len() && i != p implies ca[i] == cb[i] by {}
        lemma_crc_detects_one_byte(ca, cb, p);
    }
}

/// Only what was encoded is decoded: a block that decodes, and has zeros in its
/// spare bytes and behind its payload, is the one that encoding gives.
pub proof fn lemma_only_blocks_are_decoded(b: Seq<u8>)
    requires
        b.len() == BLOCK_SIZE,
        block_of(b) is Ok,
        forall|i: int| 17 <= i < HEADER_SIZE ==> #[trigger] b[i] == 0,
        forall|i: int| HEADER_SIZE + len_field(b) <= i < BLOCK_SIZE ==> #[trigger] b[i] == 0,
    ensures
        ({
            let blk = block_of(b)->Ok_0;
            &&& blk.payload.len() <= PAYLOAD_MAX
            &&& b == block_bytes(blk.lsn, blk.payload, blk.flags)
        }),
{
    lemma_lengths();
    lemma_auto_spec_u64_to_from_le_bytes();
    lemma_auto_spec_u32_to_from_le_bytes();
    let blk = block_of(b)->Ok_0;
    let len = len_field(b);
    let (f0, f1, f2) = (b.subrange(0, 8), b.subrange(8, 12), b.subrange(12, 16));
    assert(spec_u64_to_le_bytes(spec_u64_from_le_bytes(f0)) == f0);
    assert(spec_u32_to_le_bytes(spec_u32_from_le_bytes(f1)) == f1);
    assert(spec_u32_to_le_bytes(spec_u32_from_le_bytes(f2)) == f2);
    let h = header(blk.lsn, len, 0, blk.flags);
    assert(h =~= f0 + f1 + spec_u32_to_le_bytes(0) + b.subrange(16, HEADER_SIZE as int));
    assert(covered(b, len as int) =~= h + blk.payload);
    assert(b =~= block_bytes(blk.lsn, blk.payload, blk.flags));
}

} // verus!
