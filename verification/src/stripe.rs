//! Erasure-coded stripes spread over simulated nodes.
//!
//! A stripe of user data is split into k data shards plus m parity shards
//! (Reed-Solomon over GF(2^8)). Each shard lives in its own simulated node
//! directory `nodes/n{0..k+m-1}` as a file of checksummed 4096-byte blocks.
//! The first 8 bytes of shard 0's byte stream carry the original data length,
//! so reads reconstruct the exact object.
//!
//! [`StripeReader::read`] treats any shard whose file is missing or whose
//! block CRC fails as erased and reconstructs it transparently as long as at
//! least k shards survive. Reading and writing the files is left to the
//! caller.

use vstd::bytes::*;
use vstd::prelude::*;
use vstd::string::*;

use crate::block::{
    block_at, block_bytes, block_of, decode, encode, lemma_damage_detected, lemma_decode_encode,
    len_field, BLOCK_SIZE, HEADER_SIZE, PAYLOAD_MAX,
};
use crate::error::{ErrorModel, StoreError};
use crate::linalg::Entries;
use crate::matrix::systematic;
use crate::rs::{
    contents, equal_length, leading_lengths_agree, lemma_data_passes_through,
    lemma_enough_survivors, lemma_rebuilt_restores, missing, present, rebuilt, shard_of, survivors,
    EcError, ReedSolomon,
};
use crate::text::{decimal, digits, is_digit, lemma_digits_value};

verus! {

const LEN_PREFIX: usize = 8;

/// `part` below `base`.
pub open spec fn below(base: Seq<char>, part: Seq<char>) -> Seq<char> {
    if base.len() == 0 || base.last() == '/' {
        base + part
    } else {
        base + "/"@ + part
    }
}

/// The directory of a node.
pub open spec fn dir_of(base: Seq<char>, node: nat) -> Seq<char> {
    below(below(base, "nodes"@), "n"@ + digits(node))
}

/// The file of a shard.
pub open spec fn path_of(base: Seq<char>, node: nat, stripe_id: u64) -> Seq<char> {
    below(dir_of(base, node), "stripe-"@ + digits(stripe_id as nat) + ".dat"@)
}

/// The file in which shard `i` of a stripe is kept.
pub open spec fn home_of(base: Seq<char>, i: int, stripe_id: u64) -> Seq<char> {
    path_of(base, i as nat, stripe_id)
}

/// The length of each shard's part of `n` bytes.
pub open spec fn part_len(n: nat, k: nat) -> nat {
    if n % k == 0 {
        n / k
    } else {
        n / k + 1
    }
}

/// The bytes of `data` that shard `i` holds.
pub open spec fn part(data: Seq<u8>, k: nat, i: int) -> Seq<u8> {
    let len = part_len(data.len(), k);
    let from = if i * len < data.len() {
        i * len
    } else {
        data.len() as int
    };
    let to = if from + len < data.len() {
        from + len
    } else {
        data.len() as int
    };
    data.subrange(from, to)
}

/// `s` with zeros behind it, up to a length of `n`.
pub open spec fn filled(s: Seq<u8>, n: nat) -> Seq<u8> {
    Seq::new(
        n,
        |j: int|
            if j < s.len() {
                s[j]
            } else {
                0
            },
    )
}

/// Data shard `i` of `data`.
pub open spec fn data_shard(data: Seq<u8>, k: nat, i: int) -> Seq<u8> {
    let n = part_len(data.len(), k) + 8;
    if i == 0 {
        filled(spec_u64_to_le_bytes(data.len() as u64) + part(data, k, 0), n)
    } else {
        filled(part(data, k, i), n)
    }
}

/// The data shards of `data`.
pub open spec fn data_shards(data: Seq<u8>, k: nat) -> Seq<Seq<u8>> {
    Seq::new(k, |i: int| data_shard(data, k, i))
}

/// Shard `i` of the stripe of `data`, data or parity.
pub open spec fn stripe_shard(g: Entries, data: Seq<u8>, k: nat, i: int) -> Seq<u8> {
    if i < k {
        data_shard(data, k, i)
    } else {
        shard_of(g, data_shards(data, k), k, part_len(data.len(), k) + 8, i)
    }
}

/// The blocks that hold `bytes`, from block `i` on.
pub open spec fn blocks_from(bytes: Seq<u8>, i: nat) -> Seq<u8>
    decreases bytes.len(),
{
    if bytes.len() == 0 {
        Seq::empty()
    } else if bytes.len() <= PAYLOAD_MAX {
        block_bytes(i as u64, bytes, 0)
    } else {
        block_bytes(i as u64, bytes.take(PAYLOAD_MAX as int), 0) + blocks_from(
            bytes.skip(PAYLOAD_MAX as int),
            i + 1,
        )
    }
}

/// The file of a shard.
pub open spec fn file_of(shard: Seq<u8>) -> Seq<u8> {
    blocks_from(shard, 0)
}

/// The payloads of the blocks of a file, if all of them are good.
pub open spec fn payloads(file: Seq<u8>) -> Option<Seq<u8>>
    decreases file.len(),
{
    if file.len() == 0 {
        Some(Seq::empty())
    } else if file.len() < BLOCK_SIZE {
        None
    } else {
        match (block_of(file.take(BLOCK_SIZE as int)), payloads(file.skip(BLOCK_SIZE as int))) {
            (Ok(b), Some(rest)) => Some(b.payload + rest),
            _ => None,
        }
    }
}

/// The shard that a file holds, if it can be read.
pub open spec fn shard_in(file: Seq<u8>) -> Option<Seq<u8>> {
    match payloads(file) {
        Some(s) => if s.len() == 0 {
            None
        } else {
            Some(s)
        },
        None => None,
    }
}

/// The shards that the files hold. A file that is not there is `None`.
pub open spec fn shards_in(files: Seq<Option<Seq<u8>>>) -> Seq<Option<Seq<u8>>> {
    files.map_values(
        |f: Option<Seq<u8>>|
            match f {
                Some(file) => shard_in(file),
                None => None,
            },
    )
}

/// The length that shard 0 gives.
pub open spec fn stripe_len(first: Seq<u8>) -> u64 {
    spec_u64_from_le_bytes(first.take(8))
}

/// The data in shard `i`.
pub open spec fn body(shards: Seq<Seq<u8>>, i: int) -> Seq<u8> {
    let n = shards[0].len() - 8;
    if i == 0 {
        shards[0].skip(8)
    } else {
        shards[i].take(n)
    }
}

/// The data in the first `n` shards.
pub open spec fn bodies(shards: Seq<Seq<u8>>, n: nat) -> Seq<u8>
    decreases n,
{
    if n == 0 {
        Seq::empty()
    } else {
        bodies(shards, (n - 1) as nat) + body(shards, n - 1)
    }
}

/// The object that `k` data shards hold.
pub open spec fn joined(shards: Seq<Seq<u8>>) -> Result<Seq<u8>, ErrorModel> {
    let k = shards.len();
    if shards[0].len() < 8 {
        Err(ErrorModel::Corrupt("shard too short"@))
    } else if stripe_len(shards[0]) > (shards[0].len() - 8) * k {
        Err(ErrorModel::Corrupt("stripe length field out of range"@))
    } else if exists|i: int| 0 <= i < k && #[trigger] shards[i].len() != shards[0].len() {
        Err(ErrorModel::Corrupt("shard length mismatch"@))
    } else {
        Ok(bodies(shards, k).take(stripe_len(shards[0]) as int))
    }
}

/// `found` are the first shards of `rebuilt_shards`.
pub open spec fn leads(found: Seq<Seq<u8>>, rebuilt_shards: Seq<Option<Seq<u8>>>) -> bool {
    &&& found.len() <= rebuilt_shards.len()
    &&& forall|i: int| 0 <= i < found.len() ==> rebuilt_shards[i] == Some(#[trigger] found[i])
}

/// What reading a stripe whose shards are `shards` gives.
pub open spec fn stripe_read(
    g: Entries,
    k: nat,
    stripe_id: u64,
    shards: Seq<Option<Seq<u8>>>,
    res: Result<Seq<u8>, ErrorModel>,
) -> bool {
    let failed = |e: EcError|
        Err::<Seq<u8>, ErrorModel>(
            ErrorModel::Corrupt("stripe "@ + digits(stripe_id as nat) + ": "@ + e.spec_message()),
        );
    if survivors(shards, shards.len()).len() < k {
        res == failed(EcError::TooFewShards)
    } else if !leading_lengths_agree(shards, k) {
        res == failed(EcError::InconsistentShards)
    } else {
        exists|after: Seq<Option<Seq<u8>>>, found: Seq<Seq<u8>>|
            #![trigger rebuilt(g, k, shards, after), leads(found, after)]
            rebuilt(g, k, shards, after) && found.len() == k && leads(found, after) && res == joined(
                found,
            )
    }
}

fn path_below(base: &str, part: &str) -> (path: String)
    ensures
        path@ == below(base@, part@),
{
    let mut path = base.to_string();
    let n: usize = base.unicode_len();
    if n > 0 && base.get_char(n - 1) != '/' {
        path.append("/");
    }
    path.append(part);
    path
}

/// The directory of a node.
pub fn node_dir(base: &str, node: usize) -> (dir: String)
    ensures
        dir@ == dir_of(base@, node as nat),
{
    let nodes = path_below(base, "nodes");
    let mut name = "n".to_string();
    name.append(decimal(node as u64).as_str());
    path_below(nodes.as_str(), name.as_str())
}

/// The file of a shard.
pub fn shard_path(base: &str, node: usize, stripe_id: u64) -> (path: String)
    ensures
        path@ == path_of(base@, node as nat, stripe_id),
{
    let mut name = "stripe-".to_string();
    name.append(decimal(stripe_id).as_str());
    name.append(".dat");
    path_below(node_dir(base, node).as_str(), name.as_str())
}

/// The contents of a shard's file.
fn write_shard(shard: &[u8]) -> (file: Vec<u8>)
    ensures
        file@ == file_of(shard@),
{
    let mut file: Vec<u8> = Vec::new();
    let mut at: usize = 0;
    let mut i: u64 = 0;
    let total: usize = shard.len();
    assert(shard@.skip(0) =~= shard@);
    while at < total
        invariant
            total == shard@.len(),
            at <= total,
            i <= at,
            file_of(shard@) == file@ + blocks_from(shard@.skip(at as int), i as nat),
        decreases shard@.len() - at,
    {
        let ghost rest = shard@.skip(at as int);
        let end: usize = if total - at <= PAYLOAD_MAX {
            total
        } else {
            at + PAYLOAD_MAX
        };
        let chunk: &[u8] = &shard[at..end];
        let ghost before = file@;
        match encode(i, chunk, 0) {
            Ok(encoded) => {
                file.extend_from_slice(&encoded);
            },
            Err(_) => {},
        }
        proof {
            if rest.len() <= PAYLOAD_MAX {
                assert(chunk@ =~= rest);
                assert(shard@.skip(end as int) =~= Seq::<u8>::empty());
            } else {
                assert(chunk@ =~= rest.take(PAYLOAD_MAX as int));
                assert(shard@.skip(end as int) =~= rest.skip(PAYLOAD_MAX as int));
            }
            assert(before + (block_bytes(i, chunk@, 0) + blocks_from(
                shard@.skip(end as int),
                (i + 1) as nat,
            )) =~= file@ + blocks_from(shard@.skip(end as int), (i + 1) as nat));
            assert(blocks_from(rest, i as nat) =~= block_bytes(i, chunk@, 0) + blocks_from(
                shard@.skip(end as int),
                (i + 1) as nat,
            ));
        }
        at = end;
        i = i + 1;
    }
    assert(shard@.skip(at as int) =~= Seq::<u8>::empty());
    assert(file@ =~= file_of(shard@));
    file
}

/// The shard that a file holds; `None` where the file is torn, damaged or
/// empty.
fn read_shard(file: &[u8]) -> (shard: Option<Vec<u8>>)
    ensures
        match shard {
            Some(s) => shard_in(file@) == Some(s@),
            None => shard_in(file@) is None,
        },
{
    let mut out: Vec<u8> = Vec::new();
    let mut at: usize = 0;
    assert(file@.skip(0) =~= file@);
    while at < file.len()
        invariant
            at <= file@.len(),
            match payloads(file@.skip(at as int)) {
                Some(rest) => payloads(file@) == Some(out@ + rest),
                None => payloads(file@) is None,
            },
        decreases file@.len() - at,
    {
        if file.len() - at < BLOCK_SIZE {
            return None;
        }
        let blk = block_at(file, at);
        match decode(&blk) {
            Ok(decoded) => {
                let ghost before = out@;
                out.extend_from_slice(decoded.payload.as_slice());
                proof {
                    let rest = file@.skip(at as int);
                    assert(rest.skip(BLOCK_SIZE as int) =~= file@.skip(at + BLOCK_SIZE));
                    if let Some(r) = payloads(file@.skip(at + BLOCK_SIZE)) {
                        assert(before + (decoded.payload@ + r) =~= out@ + r);
                    }
                }
                at += BLOCK_SIZE;
            },
            Err(_) => {
                return None;
            },
        }
    }
    assert(file@.skip(at as int) =~= Seq::<u8>::empty());
    assert(out@ + Seq::<u8>::empty() =~= out@);
    if out.len() == 0 {
        None
    } else {
        Some(out)
    }
}

/// A file of a stripe: where it goes, and what is to be written to it.
#[derive(Debug, Clone, PartialEq, Eq)]
pub struct ShardFile {
    pub path: String,
    pub contents: Vec<u8>,
}

/// Data shard `i`, with the bytes of `data` from `from` to `to`.
fn fill_shard(data: &[u8], i: usize, from: usize, to: usize, n: usize) -> (shard: Vec<u8>)
    requires
        from <= to <= data@.len(),
        (to - from) + 8 <= n,
    ensures
        shard@ == filled(
            if i == 0 {
                spec_u64_to_le_bytes(data@.len() as u64) + data@.subrange(
                    from as int,
                    to as int,
                )
            } else {
                data@.subrange(from as int, to as int)
            },
            n as nat,
        ),
{
    let mut shard: Vec<u8> = Vec::new();
    proof {
        lemma_auto_spec_u64_to_from_le_bytes();
    }
    if i == 0 {
        shard.extend_from_slice(u64_to_le_bytes(data.len() as u64).as_slice());
    }
    shard.extend_from_slice(&data[from..to]);
    let ghost front = shard@;
    assert(front =~= (if i == 0 {
        spec_u64_to_le_bytes(data@.len() as u64) + data@.subrange(from as int, to as int)
    } else {
        data@.subrange(from as int, to as int)
    }));
    while shard.len() < n
        invariant
            front.len() <= shard@.len() <= n,
            forall|j: int|
                0 <= j < shard@.len() ==> #[trigger] shard@[j] == (if j < front.len() {
                    front[j]
                } else {
                    0
                }),
        decreases n - shard@.len(),
    {
        shard.push(0);
    }
    assert(shard@ =~= filled(front, n as nat));
    shard
}

/// The parts of a stripe cover it.
proof fn lemma_part_len(n: nat, k: nat)
    requires
        k > 0,
    ensures
        part_len(n, k) <= n,
        part_len(n, k) * k >= n,
        part_len(n, k) * k < n + k,
{
    let q = n / k;
    let r = n % k;
    assert(n == k * q + r) by {
        vstd::arithmetic::div_mod::lemma_fundamental_div_mod(n as int, k as int);
    }
    assert(q * k == k * q) by (nonlinear_arith);
    assert((q + 1) * k == k * q + k) by (nonlinear_arith);
    assert(k * q >= q) by (nonlinear_arith)
        requires
            k > 0,
    ;
}

pub struct StripeWriter {
    base: String,
    rs: ReedSolomon,
}

impl StripeWriter {
    pub closed spec fn wf(&self) -> bool {
        self.rs.wf()
    }

    /// The directory that the nodes' directories are in.
    pub closed spec fn dir(&self) -> Seq<char> {
        self.base@
    }

    /// The number of data shards.
    pub closed spec fn data_count(&self) -> nat {
        self.rs.data_count()
    }

    /// The number of parity shards.
    pub closed spec fn parity_count(&self) -> nat {
        self.rs.parity_count()
    }

    /// The encoding matrix.
    pub closed spec fn matrix(&self) -> Entries {
        self.rs.matrix()
    }

    /// The encoding matrix is the systematic one.
    pub proof fn lemma_codec(&self)
        requires
            self.wf(),
        ensures
            1 <= self.data_count(),
            1 <= self.parity_count(),
            self.data_count() + self.parity_count() <= 255,
            systematic(self.matrix(), self.data_count(), self.parity_count()),
    {
        self.rs.lemma_codec();
    }

    pub fn new(base: &str, k: usize, m: usize) -> (w: StripeWriter)
        requires
            1 <= k,
            1 <= m,
            k + m <= 255,
        ensures
            w.wf(),
            w.dir() == base@,
            w.data_count() == k,
            w.parity_count() == m,
    {
        StripeWriter { base: base.to_string(), rs: ReedSolomon::new(k, m) }
    }

    /// The files of the stripe of `data`, one for each node.
    pub fn write(&self, stripe_id: u64, data: &[u8]) -> (files: Vec<ShardFile>)
        requires
            self.wf(),
            data@.len() <= isize::MAX,
        ensures
            files@.len() == self.data_count() + self.parity_count(),
            forall|i: int|
                0 <= i < files@.len() ==> (#[trigger] files@[i]).path@ == home_of(
                    self.dir(),
                    i,
                    stripe_id,
                ) && files@[i].contents@ == file_of(
                    stripe_shard(self.matrix(), data@, self.data_count(), i),
                ),
    {
        proof {
            self.rs.lemma_codec();
        }
        let k: usize = self.rs.data_shard_count();
        let total: usize = data.len();
        let part_size: usize = if total % k == 0 {
            total / k
        } else {
            total / k + 1
        };
        let n: usize = part_size + LEN_PREFIX;
        proof {
            lemma_part_len(data@.len(), k as nat);
            assert(0 * part_size == 0);
        }
        let mut shards: Vec<Vec<u8>> = Vec::new();
        let mut from: usize = 0;
        for i in 0..k
            invariant
                1 <= k <= 255,
                total == data@.len() <= isize::MAX,
                part_size == part_len(data@.len(), k as nat),
                n == part_size + 8,
                part_size <= total,
                from == (if i * part_size < total {
                    i * part_size
                } else {
                    total as int
                }),
                shards@.len() == i,
                forall|j: int|
                    0 <= j < i ==> (#[trigger] shards@[j])@ == data_shard(data@, k as nat, j),
        {
            let to: usize = if total - from <= part_size {
                total
            } else {
                from + part_size
            };
            let shard = fill_shard(data, i, from, to, n);
            proof {
                assert((i + 1) * part_size == i * part_size + part_size) by (nonlinear_arith);
                assert(data@.subrange(from as int, to as int) =~= part(data@, k as nat, i as int));
                assert(shard@ == data_shard(data@, k as nat, i as int));
            }
            shards.push(shard);
            from = to;
        }
        assert(contents(shards@) =~= data_shards(data@, k as nat));
        let parity = self.rs.encode(shards.as_slice());
        let mut files: Vec<ShardFile> = Vec::new();
        let all: usize = self.rs.shard_count();
        for i in 0..all
            invariant
                self.wf(),
                1 <= k,
                k == self.data_count(),
                n == part_len(data@.len(), k as nat) + 8,
                all == self.data_count() + self.parity_count(),
                shards@.len() == k,
                contents(shards@) == data_shards(data@, k as nat),
                shards@[0]@.len() == n,
                contents(parity@) == Seq::new(
                    self.parity_count(),
                    |j: int|
                        shard_of(
                            self.matrix(),
                            contents(shards@),
                            self.data_count(),
                            shards@[0]@.len(),
                            self.data_count() + j,
                        ),
                ),
                files@.len() == i,
                forall|j: int|
                    0 <= j < i ==> (#[trigger] files@[j]).path@ == path_of(
                        self.dir(),
                        j as nat,
                        stripe_id,
                    ) && files@[j].contents@ == file_of(
                        stripe_shard(self.matrix(), data@, self.data_count(), j),
                    ),
        {
            proof {
                if i < k {
                    assert(contents(shards@)[i as int] == shards@[i as int]@);
                } else {
                    assert(contents(parity@).len() == parity@.len());
                    assert(contents(parity@)[i - k] == parity@[i - k]@);
                }
            }
            let file = if i < k {
                write_shard(shards[i].as_slice())
            } else {
                write_shard(parity[i - k].as_slice())
            };
            files.push(
                ShardFile { path: shard_path(self.base.as_str(), i, stripe_id), contents: file },
            );
        }
        files
    }
}

/// The object that the data shards hold.
fn join_shards(shards: &[&Vec<u8>]) -> (res: Result<Vec<u8>, StoreError>)
    requires
        1 <= shards@.len() <= 255,
    ensures
        read_outcome(res) == joined(Seq::new(shards@.len(), |i: int| shards@[i]@)),
{
    let ghost found = Seq::new(shards@.len(), |i: int| shards@[i]@);
    let k: usize = shards.len();
    let first: &Vec<u8> = shards[0];
    assert(found[0] == first@);
    if first.len() < LEN_PREFIX {
        return Err(StoreError::Corrupt("shard too short".to_string()));
    }
    assert(first@.subrange(0, 8) =~= first@.take(8));
    let data_len: u64 = u64_from_le_bytes(&first.as_slice()[0..LEN_PREFIX]);
    let part_size: usize = first.len() - LEN_PREFIX;
    assert(part_size * k <= 255 * (u64::MAX as int)) by (nonlinear_arith)
        requires
            k <= 255,
            part_size <= u64::MAX,
    ;
    if data_len as u128 > part_size as u128 * k as u128 {
        return Err(StoreError::Corrupt("stripe length field out of range".to_string()));
    }
    let mut out: Vec<u8> = Vec::new();
    for i in 0..k
        invariant
            k == shards@.len(),
            1 <= k,
            found == Seq::new(shards@.len(), |i: int| shards@[i]@),
            *first == *shards@[0],
            found[0].len() == part_size + 8,
            stripe_len(found[0]) <= part_size * k,
            forall|j: int| 0 <= j < i ==> (#[trigger] found[j]).len() == found[0].len(),
            out@ == bodies(found, i as nat),
            out@.len() == i * part_size,
    {
        let s: &Vec<u8> = shards[i];
        assert(found[i as int] == s@);
        if s.len() != first.len() {
            return Err(StoreError::Corrupt("shard length mismatch".to_string()));
        }
        if i == 0 {
            out.extend_from_slice(&s.as_slice()[LEN_PREFIX..LEN_PREFIX + part_size]);
        } else {
            out.extend_from_slice(&s.as_slice()[0..part_size]);
        }
        proof {
            assert(s@.subrange(8, 8 + part_size) =~= s@.skip(8));
            assert(s@.subrange(0, part_size as int) =~= s@.take(part_size as int));
            assert((i + 1) * part_size == i * part_size + part_size) by (nonlinear_arith);
        }
    }
    assert(k * part_size == part_size * k) by (nonlinear_arith);
    out.truncate(data_len as usize);
    Ok(out)
}

/// What a read gave.
pub open spec fn read_outcome(res: Result<Vec<u8>, StoreError>) -> Result<Seq<u8>, ErrorModel> {
    match res {
        Ok(data) => Ok(data@),
        Err(e) => Err(e@),
    }
}

pub struct StripeReader {
    base: String,
    rs: ReedSolomon,
}

impl StripeReader {
    pub closed spec fn wf(&self) -> bool {
        self.rs.wf()
    }

    /// The directory that the nodes' directories are in.
    pub closed spec fn dir(&self) -> Seq<char> {
        self.base@
    }

    /// The number of data shards.
    pub closed spec fn data_count(&self) -> nat {
        self.rs.data_count()
    }

    /// The number of parity shards.
    pub closed spec fn parity_count(&self) -> nat {
        self.rs.parity_count()
    }

    /// The encoding matrix.
    pub closed spec fn matrix(&self) -> Entries {
        self.rs.matrix()
    }

    /// The encoding matrix is the systematic one.
    pub proof fn lemma_codec(&self)
        requires
            self.wf(),
        ensures
            1 <= self.data_count(),
            1 <= self.parity_count(),
            self.data_count() + self.parity_count() <= 255,
            systematic(self.matrix(), self.data_count(), self.parity_count()),
    {
        self.rs.lemma_codec();
    }

    pub fn new(base: &str, k: usize, m: usize) -> (r: StripeReader)
        requires
            1 <= k,
            1 <= m,
            k + m <= 255,
        ensures
            r.wf(),
            r.dir() == base@,
            r.data_count() == k,
            r.parity_count() == m,
    {
        StripeReader { base: base.to_string(), rs: ReedSolomon::new(k, m) }
    }

    /// The files of a stripe, one for each node.
    pub fn paths(&self, stripe_id: u64) -> (paths: Vec<String>)
        requires
            self.wf(),
        ensures
            paths@.len() == self.data_count() + self.parity_count(),
            forall|i: int|
                0 <= i < paths@.len() ==> (#[trigger] paths@[i])@ == home_of(
                    self.dir(),
                    i,
                    stripe_id,
                ),
    {
        let n: usize = self.rs.shard_count();
        let mut paths: Vec<String> = Vec::new();
        for i in 0..n
            invariant
                paths@.len() == i,
                forall|j: int|
                    0 <= j < i ==> (#[trigger] paths@[j])@ == path_of(
                        self.dir(),
                        j as nat,
                        stripe_id,
                    ),
        {
            paths.push(shard_path(self.base.as_str(), i, stripe_id));
        }
        paths
    }

    /// The object in a stripe whose files hold `files`, in the order of the
    /// nodes. A file that is missing or cannot be read is `None`.
    pub fn read(&self, stripe_id: u64, files: &[Option<Vec<u8>>]) -> (res: Result<
        Vec<u8>,
        StoreError,
    >)
        requires
            self.wf(),
            files@.len() == self.data_count() + self.parity_count(),
        ensures
            stripe_read(
                self.matrix(),
                self.data_count(),
                stripe_id,
                shards_in(present(files@)),
                read_outcome(res),
            ),
    {
        proof {
            self.rs.lemma_codec();
        }
        let mut shards: Vec<Option<Vec<u8>>> = Vec::new();
        let n: usize = files.len();
        for i in 0..n
            invariant
                n == files@.len(),
                present(shards@) == shards_in(present(files@)).take(i as int),
                shards@.len() == i,
        {
            let ghost before = shards@;
            let shard = match &files[i] {
                Some(file) => read_shard(file.as_slice()),
                None => None,
            };
            shards.push(shard);
            proof {
                let shown = present(shards@)[i as int];
                assert(present(files@)[i as int] == (match files@[i as int] {
                    Some(f) => Some(f@),
                    None => None,
                }));
                assert(shown == shards_in(present(files@))[i as int]);
                assert(present(shards@) =~= present(before).push(shown));
                assert(shards_in(present(files@)).take(i + 1) =~= shards_in(
                    present(files@),
                ).take(i as int).push(shown));
            }
        }
        let ghost found = shards_in(present(files@));
        assert(found.take(n as int) =~= found);
        match self.rs.reconstruct(shards.as_mut_slice()) {
            Ok(()) => {},
            Err(e) => {
                let mut text = "stripe ".to_string();
                text.append(decimal(stripe_id).as_str());
                text.append(": ");
                text.append(e.message().as_str());
                return Err(StoreError::Corrupt(text));
            },
        }
        let ghost after = present(shards@);
        let k: usize = self.rs.data_shard_count();
        let mut parts: Vec<&Vec<u8>> = Vec::new();
        for i in 0..k
            invariant
                k <= shards@.len(),
                after == present(shards@),
                forall|j: int| 0 <= j < after.len() ==> #[trigger] after[j] is Some,
                parts@.len() == i,
                forall|j: int| 0 <= j < i ==> after[j] == Some((#[trigger] parts@[j])@),
        {
            assert(after[i as int] is Some);
            match &shards[i] {
                Some(s) => parts.push(s),
                None => {
                    return Err(
                        StoreError::Corrupt(
                            "data shard 0 missing after reconstruction".to_string(),
                        ),
                    );
                },
            }
        }
        let res = join_shards(parts.as_slice());
        proof {
            let lead = Seq::new(parts@.len(), |i: int| parts@[i]@);
            assert(leads(lead, after));
            assert(rebuilt(self.matrix(), self.data_count(), found, after));
        }
        res
    }
}

#[verifier::rlimit(40)]
#[verifier::spinoff_prover]
proof fn lemma_payloads_of_blocks(bytes: Seq<u8>, i: nat)
    ensures
        payloads(blocks_from(bytes, i)) == Some(bytes),
    decreases bytes.len(),
{
    if bytes.len() > 0 {
        let n: int = if bytes.len() <= PAYLOAD_MAX {
            bytes.len() as int
        } else {
            PAYLOAD_MAX as int
        };
        let head = bytes.take(n);
        let tail = bytes.skip(n);
        lemma_decode_encode(i as u64, head, 0);
        lemma_payloads_of_blocks(tail, i + 1);
        let first = block_bytes(i as u64, head, 0);
        let rest = blocks_from(tail, i + 1);
        if bytes.len() <= PAYLOAD_MAX {
            assert(head =~= bytes);
            assert(tail =~= Seq::<u8>::empty());
        }
        let file = blocks_from(bytes, i);
        assert(file =~= first + rest);
        assert(file.take(BLOCK_SIZE as int) =~= first);
        assert(file.skip(BLOCK_SIZE as int) =~= rest);
        assert(head + tail =~= bytes);
    }
}

/// A shard that was written to a file is read back from it.
pub proof fn lemma_shard_reads_back(shard: Seq<u8>)
    requires
        shard.len() > 0,
    ensures
        shard_in(file_of(shard)) == Some(shard),
{
    lemma_payloads_of_blocks(shard, 0);
}

/// A file that is damaged in one byte of the header or payload of one of its
/// blocks cannot be read. (Damage to a length field is noticed unless the CRC
/// happens to match, as [`lemma_damage_detected`] says.)
pub proof fn lemma_damaged_file_is_refused(good: Seq<u8>, bad: Seq<u8>, block: nat, p: int)
    requires
        payloads(good) is Some,
        bad.len() == good.len(),
        (block + 1) * BLOCK_SIZE <= good.len(),
        p < BLOCK_SIZE,
        0 <= p < HEADER_SIZE + len_field(
            good.subrange(block * BLOCK_SIZE, (block + 1) * BLOCK_SIZE),
        ),
        !(8 <= p < 12),
        good[block * BLOCK_SIZE + p] != bad[block * BLOCK_SIZE + p],
        forall|i: int|
            0 <= i < good.len() && i != block * BLOCK_SIZE + p ==> good[i] == bad[i],
    ensures
        payloads(bad) is None,
        shard_in(bad) is None,
    decreases block,
{
    let one = BLOCK_SIZE as int;
    if block == 0 {
        assert(good.subrange(0, one) =~= good.take(one));
        lemma_damage_detected(good.take(one), bad.take(one), p);
    } else {
        let g = good.skip(one);
        let b = bad.skip(one);
        let at = (block - 1) as nat;
        assert(good.subrange(block * BLOCK_SIZE, (block + 1) * BLOCK_SIZE) =~= g.subrange(
            at * BLOCK_SIZE,
            (at + 1) * BLOCK_SIZE,
        ));
        assert(g[at * BLOCK_SIZE + p] == good[block * BLOCK_SIZE + p]);
        assert(b[at * BLOCK_SIZE + p] == bad[block * BLOCK_SIZE + p]);
        lemma_damaged_file_is_refused(g, b, at, p);
    }
}

proof fn lemma_bodies(data: Seq<u8>, k: nat, n: nat)
    requires
        1 <= k,
        n <= k,
        data.len() <= u64::MAX,
    ensures
        bodies(data_shards(data, k), n).len() == n * part_len(data.len(), k),
        forall|j: int|
            0 <= j < n * part_len(data.len(), k) ==> #[trigger] bodies(
                data_shards(data, k),
                n,
            )[j] == (if j < data.len() {
                data[j]
            } else {
                0
            }),
    decreases n,
{
    let len = part_len(data.len(), k);
    let shards = data_shards(data, k);
    if n == 0 {
        assert(0 * len == 0);
    } else {
        let i = n - 1;
        lemma_bodies(data, k, i as nat);
        lemma_part_len(data.len(), k);
        lemma_auto_spec_u64_to_from_le_bytes();
        assert(n * len == i * len + len) by (nonlinear_arith)
            requires
                i == n - 1,
        ;
        assert(0 <= i * len) by (nonlinear_arith)
            requires
                0 <= i,
        ;
        let b = body(shards, i);
        assert(shards[i] == data_shard(data, k, i));
        assert(shards[0] == data_shard(data, k, 0));
        assert(b.len() == len);
        assert(0 * len == 0);
        assert forall|j: int| 0 <= j < n * len implies #[trigger] bodies(shards, n)[j] == (if j
            < data.len() {
            data[j]
        } else {
            0
        }) by {
            if j >= i * len {
                let t = j - i * len;
                assert(bodies(shards, n)[j] == b[t]);
                if i == 0 {
                    assert(b[t] == shards[0][t + 8]);
                } else {
                    assert(b[t] == shards[i][t]);
                }
            }
        }
    }
}

/// The data shards of an object join to it.
pub proof fn lemma_shards_join(data: Seq<u8>, k: nat)
    requires
        1 <= k,
        data.len() <= u64::MAX,
    ensures
        joined(data_shards(data, k)) == Ok::<Seq<u8>, ErrorModel>(data),
{
    let shards = data_shards(data, k);
    lemma_bodies(data, k, k);
    lemma_part_len(data.len(), k);
    lemma_auto_spec_u64_to_from_le_bytes();
    let len = part_len(data.len(), k);
    assert(k * len == len * k) by (nonlinear_arith);
    assert(shards[0] == data_shard(data, k, 0));
    assert(shards[0].take(8) =~= spec_u64_to_le_bytes(data.len() as u64));
    assert(stripe_len(shards[0]) == data.len());
    assert forall|i: int| 0 <= i < k implies #[trigger] shards[i].len() == shards[0].len() by {
        assert(shards[i] == data_shard(data, k, i));
    }
    assert(bodies(shards, k).take(data.len() as int) =~= data);
}

/// Stripe transparency: an object is read back as long as no more than `m`
/// of its files are missing or unreadable.
pub proof fn lemma_stripe_reads_back(
    g: Entries,
    k: nat,
    m: nat,
    data: Seq<u8>,
    stripe_id: u64,
    files: Seq<Option<Seq<u8>>>,
    res: Result<Seq<u8>, ErrorModel>,
)
    requires
        systematic(g, k, m),
        1 <= k,
        k + m <= 255,
        data.len() <= u64::MAX,
        files.len() == k + m,
        forall|i: int|
            0 <= i < k + m ==> #[trigger] files[i] == Some(file_of(stripe_shard(g, data, k, i)))
                || shards_in(files)[i] is None,
        missing(shards_in(files), k + m) <= m,
        stripe_read(g, k, stripe_id, shards_in(files), res),
    ensures
        res == Ok::<Seq<u8>, ErrorModel>(data),
{
    let shards = shards_in(files);
    let ds = data_shards(data, k);
    let len = part_len(data.len(), k) + 8;
    assert(equal_length(ds, k, len));
    assert forall|i: int| 0 <= i < k + m && (#[trigger] shards[i]) is Some implies shards[i]
        == Some(shard_of(g, ds, k, len, i)) by {
        assert(files[i] == Some(file_of(stripe_shard(g, data, k, i))));
        let shard = stripe_shard(g, data, k, i);
        if i < k {
            lemma_data_passes_through(g, k, m, ds, len, i);
            assert(ds[i] == data_shard(data, k, i));
        }
        assert(shard == shard_of(g, ds, k, len, i));
        lemma_shard_reads_back(shard);
    }
    lemma_enough_survivors(shards, k + m);
    let at = survivors(shards, shards.len());
    assert forall|j: int| 0 <= j < k implies shards[#[trigger] at[j]].unwrap().len() == len by {
        crate::rs::lemma_survivors(shards, shards.len());
        assert(shards[at[j]] is Some);
    }
    assert(at[0] == at[0]);
    assert(leading_lengths_agree(shards, k));
    let (after, found) = choose|after: Seq<Option<Seq<u8>>>, found: Seq<Seq<u8>>|
        #![trigger rebuilt(g, k, shards, after), leads(found, after)]
        rebuilt(g, k, shards, after) && found.len() == k && leads(found, after) && res == joined(
            found,
        );
    lemma_rebuilt_restores(g, k, m, ds, len, shards, after);
    assert forall|i: int| 0 <= i < k implies #[trigger] found[i] == ds[i] by {
        lemma_data_passes_through(g, k, m, ds, len, i);
        assert(after[i] == Some(shard_of(g, ds, k, len, i)));
    }
    assert(found =~= ds);
    lemma_shards_join(data, k);
}

/// With more than `m` files missing or unreadable a read fails, whatever the
/// other files hold.
pub proof fn lemma_lost_stripe_fails(
    g: Entries,
    k: nat,
    m: nat,
    stripe_id: u64,
    files: Seq<Option<Seq<u8>>>,
    res: Result<Seq<u8>, ErrorModel>,
)
    requires
        files.len() == k + m,
        missing(shards_in(files), k + m) > m,
        stripe_read(g, k, stripe_id, shards_in(files), res),
    ensures
        res == Err::<Seq<u8>, ErrorModel>(
            ErrorModel::Corrupt(
                "stripe "@ + digits(stripe_id as nat) + ": "@
                    + EcError::TooFewShards.spec_message(),
            ),
        ),
{
    lemma_enough_survivors(shards_in(files), k + m);
}

/// The path of a shard, part by part: the directory `nodes` below the base, in it
/// one directory for each node, named by its number, and in that one file for
/// each stripe, named by its number.
pub proof fn lemma_path_parts(base: Seq<char>, node: nat, stripe_id: u64)
    ensures
        path_of(base, node, stripe_id) == below(base, "nodes"@) + "/"@ + "n"@ + digits(node) + "/"@
            + "stripe-"@ + digits(stripe_id as nat) + ".dat"@,
        dir_of(base, node) == below(base, "nodes"@) + "/"@ + "n"@ + digits(node),
        digits(node).len() > 0,
        forall|i: int| 0 <= i < digits(node).len() ==> #[trigger] digits(node)[i] != '/',
{
    reveal_strlit("nodes");
    reveal_strlit("/");
    reveal_strlit("n");
    lemma_digits_value(node);
    let top = below(base, "nodes"@);
    assert(top.last() == "nodes"@.last());
    let dir = dir_of(base, node);
    assert(dir =~= top + "/"@ + "n"@ + digits(node));
    assert(dir.last() == digits(node).last());
    assert(is_digit(digits(node)[digits(node).len() - 1]));
    assert forall|i: int| 0 <= i < digits(node).len() implies #[trigger] digits(node)[i] != '/' by {
        assert(is_digit(digits(node)[i]));
    }
    assert(path_of(base, node, stripe_id) =~= top + "/"@ + "n"@ + digits(node) + "/"@ + "stripe-"@
        + digits(stripe_id as nat) + ".dat"@);
}

/// Every shard of every stripe has a file of its own: below one base, files of
/// different nodes or of different stripes have different paths.
pub proof fn lemma_paths_differ(base: Seq<char>, node: nat, id: u64, node2: nat, id2: u64)
    requires
        path_of(base, node, id) == path_of(base, node2, id2),
    ensures
        node == node2,
        id == id2,
{
    lemma_path_parts(base, node, id);
    lemma_path_parts(base, node2, id2);
    reveal_strlit("/");
    let (p, q) = (path_of(base, node, id), path_of(base, node2, id2));
    let head = below(base, "nodes"@) + "/"@ + "n"@;
    let (d, d2) = (digits(node), digits(node2));
    let (n, n2) = ((head.len() + d.len()) as int, (head.len() + d2.len()) as int);
    assert(p[n] == '/');
    assert(q[n2] == '/');
    if n < n2 {
        assert(q[n] == d2[n - head.len()]);
    }
    if n2 < n {
        assert(p[n2] == d[n2 - head.len()]);
    }
    assert(p.subrange(head.len() as int, n) =~= d);
    assert(q.subrange(head.len() as int, n) =~= d2);
    lemma_digits_value(node);
    lemma_digits_value(node2);
    let (e, e2) = (digits(id as nat), digits(id2 as nat));
    let start = n + "/"@.len() + "stripe-"@.len();
    assert(p.len() == start + e.len() + ".dat"@.len());
    assert(q.len() == start + e2.len() + ".dat"@.len());
    assert(p.subrange(start, start + e.len()) =~= e);
    assert(q.subrange(start, start + e.len()) =~= e2);
    lemma_digits_value(id as nat);
    lemma_digits_value(id2 as nat);
}

/// A shard's file lies in the directory of its node, and different nodes have
/// different directories.
pub proof fn lemma_file_in_node_dir(base: Seq<char>, node: nat, id: u64, node2: nat)
    ensures
        dir_of(base, node).len() < path_of(base, node, id).len(),
        path_of(base, node, id).take(dir_of(base, node).len() as int) == dir_of(base, node),
        path_of(base, node, id)[dir_of(base, node).len() as int] == '/',
        dir_of(base, node) == dir_of(base, node2) ==> node == node2,
{
    lemma_path_parts(base, node, id);
    lemma_path_parts(base, node2, id);
    reveal_strlit("/");
    let dir = dir_of(base, node);
    let p = path_of(base, node, id);
    assert(p.take(dir.len() as int) =~= dir);
    if dir == dir_of(base, node2) {
        assert(p =~= path_of(base, node2, id));
        lemma_paths_differ(base, node, id, node2, id);
    }
}

/// The parts of an object are as short as `k` parts of one length can be.
pub proof fn lemma_parts_are_short(n: nat, k: nat)
    requires
        1 <= k,
    ensures
        k * part_len(n, k) >= n,
        n > 0 ==> part_len(n, k) > 0 && k * (part_len(n, k) - 1) < n,
        n == 0 ==> part_len(n, k) == 0,
{
    let q = n / k;
    let r = n % k;
    assert(n == k * q + r && 0 <= r < k) by (nonlinear_arith)
        requires
            k >= 1,
            q == n / k,
            r == n % k,
    ;
    assert(k * (q + 1) == k * q + k) by (nonlinear_arith);
    assert(k * (q - 1) == k * q - k) by (nonlinear_arith);
    if n > 0 && q == 0 {
        assert(k * q == 0) by (nonlinear_arith)
            requires
                q == 0,
        ;
    }
}

/// Shards make an object if they have one length, with room for the length field,
/// and that field says no more than they hold; the object is then as long as the
/// field says. Otherwise they make none.
pub proof fn lemma_joined_shards(shards: Seq<Seq<u8>>)
    requires
        shards.len() > 0,
    ensures
        ({
            let n = spec_u64_from_le_bytes(shards[0].take(8));
            &&& joined(shards) is Ok <==> {
                &&& shards[0].len() >= 8
                &&& n <= (shards[0].len() - 8) * shards.len()
                &&& forall|i: int|
                    0 <= i < shards.len() ==> #[trigger] shards[i].len() == shards[0].len()
            }
            &&& joined(shards) matches Ok(data) ==> data.len() == n
        }),
{
    if shards[0].len() >= 8 && forall|i: int|
        0 <= i < shards.len() ==> #[trigger] shards[i].len() == shards[0].len() {
        lemma_bodies_len(shards, shards.len());
    }
}

proof fn lemma_bodies_len(shards: Seq<Seq<u8>>, n: nat)
    requires
        n <= shards.len(),
        shards.len() > 0,
        shards[0].len() >= 8,
        forall|i: int| 0 <= i < shards.len() ==> #[trigger] shards[i].len() == shards[0].len(),
    ensures
        bodies(shards, n).len() == (shards[0].len() - 8) * n,
    decreases n,
{
    let len = shards[0].len() - 8;
    if n > 0 {
        lemma_bodies_len(shards, (n - 1) as nat);
        assert(shards[n - 1].len() == shards[0].len());
        assert(len * n == len * (n - 1) + len) by (nonlinear_arith);
    } else {
        assert(len * n == 0) by (nonlinear_arith)
            requires
                n == 0,
        ;
    }
}

/// A file that is empty, or does not end with a whole block, holds no shard. One
/// that holds a shard is all good blocks, with the shard's bytes in them.
pub proof fn lemma_ragged_file_is_refused(file: Seq<u8>)
    ensures
        file.len() == 0 ==> shard_in(file) is None,
        file.len() % (BLOCK_SIZE as nat) != 0 ==> shard_in(file) is None,
        file.len() >= BLOCK_SIZE && block_of(file.take(BLOCK_SIZE as int)) is Err ==> shard_in(file)
            is None,
        shard_in(file) matches Some(s) ==> s.len() > 0,
{
    lemma_whole_blocks(file);
}

proof fn lemma_whole_blocks(file: Seq<u8>)
    ensures
        payloads(file) is Some ==> file.len() % (BLOCK_SIZE as nat) == 0,
    decreases file.len(),
{
    if file.len() >= BLOCK_SIZE {
        lemma_whole_blocks(file.skip(BLOCK_SIZE as int));
    }
}

/// Where the bytes of an object are: its length in the first eight bytes of
/// shard 0, and its parts, one after the other, behind that and at the start of
/// the other data shards, with zeros where the object has ended. All shards have
/// one length.
pub proof fn lemma_shard_layout(data: Seq<u8>, k: nat, i: int, j: int)
    requires
        1 <= k,
        data.len() <= u64::MAX,
        0 <= i < k,
        0 <= j < part_len(data.len(), k),
    ensures
        ({
            let len = part_len(data.len(), k);
            let shard = data_shards(data, k)[i];
            let at = i * len + j;
            let x = if i == 0 {
                shard[8 + j]
            } else {
                shard[j]
            };
            &&& shard.len() == len + 8
            &&& at < data.len() ==> x == data[at]
            &&& at >= data.len() ==> x == 0
            &&& i == 0 ==> spec_u64_from_le_bytes(shard.take(8)) == data.len()
        }),
{
    lemma_auto_spec_u64_to_from_le_bytes();
    let len = part_len(data.len(), k);
    let shard = data_shards(data, k)[i];
    assert(shard == data_shard(data, k, i));
    if i == 0 {
        assert(shard.take(8) =~= spec_u64_to_le_bytes(data.len() as u64));
        assert(0 * len == 0);
    } else {
        assert(i * len >= 0) by (nonlinear_arith)
            requires
                i >= 0,
                len >= 0,
        ;
    }
}

/// The file of a shard is cut into blocks, numbered from `i` on: the first holds
/// as many bytes as a block can, or all there are, with its number and no flags,
/// and the next ones hold the rest.
pub proof fn lemma_blocks_are_numbered(bytes: Seq<u8>, i: u64)
    requires
        bytes.len() > 0,
    ensures
        ({
            let n = if bytes.len() < PAYLOAD_MAX {
                bytes.len() as int
            } else {
                PAYLOAD_MAX as int
            };
            let file = blocks_from(bytes, i as nat);
            &&& file.len() >= BLOCK_SIZE
            &&& block_of(file.take(BLOCK_SIZE as int)) matches Ok(b) && b.lsn == i && b.payload
                == bytes.take(n) && b.flags == 0
            &&& file.skip(BLOCK_SIZE as int) == blocks_from(bytes.skip(n), i as nat + 1)
        }),
{
    let n = if bytes.len() < PAYLOAD_MAX {
        bytes.len() as int
    } else {
        PAYLOAD_MAX as int
    };
    let file = blocks_from(bytes, i as nat);
    let first = block_bytes(i, bytes.take(n), 0);
    let rest = blocks_from(bytes.skip(n), i as nat + 1);
    lemma_decode_encode(i, bytes.take(n), 0);
    assert(bytes.take(bytes.len() as int) =~= bytes);
    assert(file =~= first + rest);
    assert(file.take(BLOCK_SIZE as int) =~= first);
    assert(file.skip(BLOCK_SIZE as int) =~= rest);
}

/// Each shard of a stripe is kept in the directory of the node of the same number,
/// and no two shards, of one stripe or of different ones, in one file.
pub proof fn lemma_homes(base: Seq<char>, i: int, id: u64, i2: int, id2: u64)
    requires
        0 <= i,
        0 <= i2,
    ensures
        home_of(base, i, id) == home_of(base, i2, id2) ==> i == i2 && id == id2,
        home_of(base, i, id).len() > dir_of(base, i as nat).len(),
        home_of(base, i, id).take(dir_of(base, i as nat).len() as int) == dir_of(base, i as nat),
{
    lemma_file_in_node_dir(base, i as nat, id, i as nat);
    if home_of(base, i, id) == home_of(base, i2, id2) {
        lemma_paths_differ(base, i as nat, id, i2 as nat, id2);
    }
}

/// `files`, by their paths, hold the stripe of `data`, number `id`.
pub open spec fn holds_stripe(
    files: Map<Seq<char>, Seq<u8>>,
    base: Seq<char>,
    g: Entries,
    k: nat,
    m: nat,
    id: u64,
    data: Seq<u8>,
) -> bool {
    forall|i: nat|
        i < k + m ==> files.contains_key(#[trigger] home_of(base, i as int, id)) && files[home_of(
            base,
            i as int,
            id,
        )] == file_of(stripe_shard(g, data, k, i as int))
}

/// Writing a stripe, with the number `id`, makes `after` of `before`.
pub open spec fn writes_stripe(
    before: Map<Seq<char>, Seq<u8>>,
    base: Seq<char>,
    g: Entries,
    k: nat,
    m: nat,
    id: u64,
    data: Seq<u8>,
    after: Map<Seq<char>, Seq<u8>>,
) -> bool {
    &&& holds_stripe(after, base, g, k, m, id, data)
    &&& forall|path: Seq<char>|
        (forall|i: nat| i < k + m ==> path != #[trigger] home_of(base, i as int, id))
            && before.contains_key(path) ==> #[trigger] after.contains_key(path) && after[path]
            == before[path]
}

/// Stripes do not get in each other's way: what was written under one number is
/// read back after a stripe was written under another.
pub proof fn lemma_stripes_are_apart(
    before: Map<Seq<char>, Seq<u8>>,
    base: Seq<char>,
    g: Entries,
    k: nat,
    m: nat,
    id: u64,
    data: Seq<u8>,
    id2: u64,
    data2: Seq<u8>,
    after: Map<Seq<char>, Seq<u8>>,
    res: Result<Seq<u8>, ErrorModel>,
)
    requires
        systematic(g, k, m),
        1 <= k,
        k + m <= 255,
        data.len() <= u64::MAX,
        id != id2,
        holds_stripe(before, base, g, k, m, id, data),
        writes_stripe(before, base, g, k, m, id2, data2, after),
        stripe_read(
            g,
            k,
            id,
            shards_in(Seq::new(k + m, |i: int| Some(after[home_of(base, i, id)]))),
            res,
        ),
    ensures
        holds_stripe(after, base, g, k, m, id, data),
        res == Ok::<Seq<u8>, ErrorModel>(data),
{
    assert forall|i: nat| i < k + m implies after.contains_key(#[trigger] home_of(base, i as int, id))
        && after[home_of(base, i as int, id)] == before[home_of(base, i as int, id)] by {
        let path = home_of(base, i as int, id);
        assert forall|j: nat| j < k + m implies path != #[trigger] home_of(base, j as int, id2) by {
            if path == home_of(base, j as int, id2) {
                lemma_homes(base, i as int, id, j as int, id2);
            }
        }
        assert(before.contains_key(path));
    }
    let files = Seq::new(k + m, |i: int| Some(after[home_of(base, i, id)]));
    assert forall|i: int| 0 <= i < k + m implies #[trigger] files[i] == Some(
        file_of(stripe_shard(g, data, k, i)),
    ) by {
        assert(after.contains_key(home_of(base, i as nat as int, id)));
    }
    lemma_all_present(g, data, k, m, files);
    lemma_stripe_reads_back(g, k, m, data, id, files, res);
}

proof fn lemma_all_present(
    g: Entries,
    data: Seq<u8>,
    k: nat,
    m: nat,
    files: Seq<Option<Seq<u8>>>,
)
    requires
        files.len() == k + m,
        forall|i: int|
            0 <= i < k + m ==> #[trigger] files[i] == Some(file_of(stripe_shard(g, data, k, i))),
    ensures
        missing(shards_in(files), k + m) == 0,
{
    let shards = shards_in(files);
    assert forall|i: int| 0 <= i < k + m implies (#[trigger] shards[i]) is Some by {
        assert(files[i] == Some(file_of(stripe_shard(g, data, k, i))));
        lemma_shard_reads_back(stripe_shard(g, data, k, i));
    }
    lemma_none_missing(shards, k + m);
}

proof fn lemma_none_missing(shards: Seq<Option<Seq<u8>>>, n: nat)
    requires
        n <= shards.len(),
        forall|i: int| 0 <= i < n ==> (#[trigger] shards[i]) is Some,
    ensures
        missing(shards, n) == 0,
    decreases n,
{
    if n > 0 {
        lemma_none_missing(shards, (n - 1) as nat);
    }
}

} // verus!
