//! Reed-Solomon encoding and reconstruction.

use vstd::prelude::*;

use crate::gf;
use crate::gf::{lemma_add_laws, prod};
use crate::linalg::{
    apply, apply_at, identity_at, in_kernel, inverse_pair, lemma_apply_associative,
    lemma_apply_identity, lemma_poly_is_sum, lemma_sum_add, lemma_sum_ext, mul_at, poly, power,
    selected, sum, times, Entries,
};
use crate::matrix::{
    lemma_every_submatrix_nonsingular, lemma_systematic_top, systematic, systematic_via, vandermonde,
    Matrix,
};

verus! {

#[derive(Debug, Clone, Copy, PartialEq, Eq)]
pub enum EcError {
    TooFewShards,
    InconsistentShards,
}

impl EcError {
    pub open spec fn spec_message(&self) -> Seq<char> {
        match self {
            EcError::TooFewShards => "fewer than k surviving shards"@,
            EcError::InconsistentShards => "shard count or lengths are inconsistent"@,
        }
    }

    /// The error in words.
    pub fn message(&self) -> (text: String)
        ensures
            text@ == self.spec_message(),
    {
        match self {
            EcError::TooFewShards => "fewer than k surviving shards".to_string(),
            EcError::InconsistentShards => "shard count or lengths are inconsistent".to_string(),
        }
    }
}

/// Byte `pos` of the shard in row `row` of the code: the combination of the
/// `k` data shards that row `row` of the encoding matrix `g` gives.
pub open spec fn coded(g: Entries, data: Seq<Seq<u8>>, k: nat, row: int, pos: int) -> u8 {
    apply_at(g, |i: int| data[i][pos], k, row)
}

/// `data` is `k` shards of `len` bytes each.
pub open spec fn equal_length(data: Seq<Seq<u8>>, k: nat, len: nat) -> bool {
    data.len() == k && forall|i: int| 0 <= i < k ==> #[trigger] data[i].len() == len
}

/// The whole shard in row `row` of the code.
pub open spec fn shard_of(g: Entries, data: Seq<Seq<u8>>, k: nat, len: nat, row: int) -> Seq<u8> {
    Seq::new(len, |pos: int| coded(g, data, k, row, pos))
}

/// The contents of the shards.
pub open spec fn contents(shards: Seq<Vec<u8>>) -> Seq<Seq<u8>> {
    Seq::new(shards.len(), |i: int| shards[i]@)
}

/// The contents of the shards that are there.
pub open spec fn present(shards: Seq<Option<Vec<u8>>>) -> Seq<Option<Seq<u8>>> {
    Seq::new(
        shards.len(),
        |i: int|
            match shards[i] {
                Some(s) => Some(s@),
                None => None,
            },
    )
}

/// The positions below `n` of the shards that are there, in order.
pub open spec fn survivors(shards: Seq<Option<Seq<u8>>>, n: nat) -> Seq<int>
    decreases n,
{
    if n == 0 {
        Seq::empty()
    } else {
        let rest = survivors(shards, (n - 1) as nat);
        if shards[n - 1] is Some {
            rest.push(n - 1)
        } else {
            rest
        }
    }
}

/// The first `k` shards that are there have one length.
pub open spec fn leading_lengths_agree(shards: Seq<Option<Seq<u8>>>, k: nat) -> bool {
    let at = survivors(shards, shards.len());
    forall|j: int| 0 <= j < k ==> shards[#[trigger] at[j]].unwrap().len() == shards[at[0]].unwrap().len()
}

/// `after` is `before` with each missing shard recomputed from `data`, which
/// the first `k` shards of `before` that are there encode.
pub open spec fn rebuilt_from(
    g: Entries,
    k: nat,
    data: Seq<Seq<u8>>,
    before: Seq<Option<Seq<u8>>>,
    after: Seq<Option<Seq<u8>>>,
) -> bool {
    let at = survivors(before, before.len());
    let len = before[at[0]].unwrap().len();
    &&& equal_length(data, k, len)
    &&& forall|j: int|
        0 <= j < k ==> before[#[trigger] at[j]] == Some(shard_of(g, data, k, len, at[j]))
    &&& after.len() == before.len()
    &&& forall|i: int|
        0 <= i < before.len() ==> #[trigger] after[i] == (if before[i] is Some {
            before[i]
        } else {
            Some(shard_of(g, data, k, len, i))
        })
}

/// `after` is `before` with every missing shard rebuilt.
pub open spec fn rebuilt(
    g: Entries,
    k: nat,
    before: Seq<Option<Seq<u8>>>,
    after: Seq<Option<Seq<u8>>>,
) -> bool {
    exists|data: Seq<Seq<u8>>| rebuilt_from(g, k, data, before, after)
}

/// The survivors are there, in increasing order.
pub proof fn lemma_survivors(shards: Seq<Option<Seq<u8>>>, n: nat)
    requires
        n <= shards.len(),
    ensures
        survivors(shards, n).len() <= n,
        forall|j: int|
            0 <= j < survivors(shards, n).len() ==> 0 <= #[trigger] survivors(shards, n)[j] < n
                && shards[survivors(shards, n)[j]] is Some,
        forall|i: int, j: int|
            0 <= i < j < survivors(shards, n).len() ==> survivors(shards, n)[i] < survivors(
                shards,
                n,
            )[j],
    decreases n,
{
    if n > 0 {
        lemma_survivors(shards, (n - 1) as nat);
    }
}

/// Data is determined by the shards in `k` rows of the code.
proof fn lemma_data_determined(
    g: Entries,
    k: nat,
    m: nat,
    rows: Seq<int>,
    a: Seq<Seq<u8>>,
    b: Seq<Seq<u8>>,
    len: nat,
)
    requires
        systematic(g, k, m),
        k + m <= 255,
        rows.len() == k,
        forall|i: int| 0 <= i < k ==> 0 <= #[trigger] rows[i] < k + m,
        forall|i: int, j: int| 0 <= i < j < k ==> rows[i] != rows[j],
        equal_length(a, k, len),
        equal_length(b, k, len),
        forall|j: int|
            0 <= j < k ==> shard_of(g, a, k, len, #[trigger] rows[j]) == shard_of(
                g,
                b,
                k,
                len,
                rows[j],
            ),
    ensures
        a == b,
{
    lemma_every_submatrix_nonsingular(g, k, m, rows);
    let gs = selected(g, rows);
    assert forall|i: int| 0 <= i < k implies #[trigger] a[i] == b[i] by {
        assert(a[i].len() == len && b[i].len() == len);
        assert forall|pos: int| 0 <= pos < len implies a[i][pos] == b[i][pos] by {
            let u = |t: int| a[t][pos];
            let w = |t: int| b[t][pos];
            let d = |t: int| u(t) ^ w(t);
            assert forall|r: int| 0 <= r < k implies #[trigger] apply_at(gs, d, k, r) == 0 by {
                let p = |t: int| prod(gs(r, t), u(t));
                let q = |t: int| prod(gs(r, t), w(t));
                let s = |t: int| prod(gs(r, t), d(t));
                assert forall|t: int| 0 <= t < k implies #[trigger] s(t) == p(t) ^ q(t) by {
                    gf::lemma_mul_distributive(gs(r, t), u(t), w(t));
                }
                lemma_sum_add(p, q, s, k);
                assert(shard_of(g, a, k, len, rows[r])[pos] == shard_of(g, b, k, len, rows[r])[pos]);
                lemma_sum_ext(p, |t: int| prod(g(rows[r], t), u(t)), k);
                lemma_sum_ext(q, |t: int| prod(g(rows[r], t), w(t)), k);
                assert(coded(g, a, k, rows[r], pos) == sum(p, k));
                assert(coded(g, b, k, rows[r], pos) == sum(q, k));
                lemma_add_laws(sum(p, k), 0, 0);
            }
            assert(in_kernel(gs, d, k));
            assert(d(i) == 0);
            lemma_add_laws(u(i), w(i), 0);
        }
        assert(a[i] =~= b[i]);
    }
    assert(a =~= b);
}

/// Erasing shards of a code word and rebuilding them gives the code word
/// back, as long as `k` of its shards are left.
pub proof fn lemma_rebuilt_restores(
    g: Entries,
    k: nat,
    m: nat,
    data: Seq<Seq<u8>>,
    len: nat,
    before: Seq<Option<Seq<u8>>>,
    after: Seq<Option<Seq<u8>>>,
)
    requires
        systematic(g, k, m),
        1 <= k,
        k + m <= 255,
        equal_length(data, k, len),
        before.len() == k + m,
        forall|i: int|
            0 <= i < k + m && (#[trigger] before[i]) is Some ==> before[i] == Some(
                shard_of(g, data, k, len, i),
            ),
        survivors(before, before.len()).len() >= k,
        rebuilt(g, k, before, after),
    ensures
        after.len() == k + m,
        forall|i: int|
            0 <= i < k + m ==> #[trigger] after[i] == Some(shard_of(g, data, k, len, i)),
{
    let found = choose|d: Seq<Seq<u8>>| rebuilt_from(g, k, d, before, after);
    let at = survivors(before, before.len());
    lemma_survivors(before, before.len());
    let rows = at.take(k as int);
    assert(before[at[0]] == Some(shard_of(g, data, k, len, at[0])));
    assert forall|j: int| 0 <= j < k implies shard_of(g, found, k, len, #[trigger] rows[j])
        == shard_of(g, data, k, len, rows[j]) by {
        assert(before[at[j]] == Some(shard_of(g, found, k, len, at[j])));
        assert(before[at[j]] == Some(shard_of(g, data, k, len, at[j])));
    }
    lemma_data_determined(g, k, m, rows, found, data, len);
}

/// `rows` are the positions below `n` of the shards that are there.
pub open spec fn all_there(shards: Seq<Option<Seq<u8>>>, n: int, rows: Seq<int>) -> bool {
    &&& forall|j: int| 0 <= j < rows.len() ==> 0 <= #[trigger] rows[j] < n && shards[rows[j]] is Some
    &&& forall|i: int, j: int| 0 <= i < j < rows.len() ==> rows[i] < rows[j]
    &&& forall|i: int| 0 <= i < n && (#[trigger] shards[i]) is Some ==> rows.contains(i)
}

proof fn lemma_survivors_are(shards: Seq<Option<Seq<u8>>>, n: nat, rows: Seq<int>)
    requires
        n <= shards.len(),
        all_there(shards, n as int, rows),
    ensures
        survivors(shards, n) == rows,
    decreases n,
{
    if n == 0 {
        if rows.len() > 0 {
            let r = rows[0int];
            assert(0 <= r && r < n as int);
        }
        assert(rows =~= survivors(shards, 0));
    } else if shards[n - 1] is Some {
        assert(rows.contains(n - 1));
        let k = choose|k: int| 0 <= k < rows.len() && rows[k] == n - 1;
        if k < rows.len() - 1 {
            assert(rows[k] < rows[rows.len() - 1]);
        }
        let front = rows.drop_last();
        assert forall|j: int| 0 <= j < front.len() implies 0 <= #[trigger] front[j] < n - 1
            && shards[front[j]] is Some by {
            assert(rows[j] < rows[rows.len() - 1]);
        }
        assert forall|i: int| 0 <= i < n - 1 && (#[trigger] shards[i]) is Some implies front.contains(
            i,
        ) by {
            let t = choose|t: int| 0 <= t < rows.len() && rows[t] == i;
            assert(front[t] == i);
        }
        lemma_survivors_are(shards, (n - 1) as nat, front);
        assert(front.push(n - 1) =~= rows);
    } else {
        assert forall|j: int| 0 <= j < rows.len() implies 0 <= #[trigger] rows[j] < n - 1
            && shards[rows[j]] is Some by {
            assert(shards[rows[j]] is Some);
        }
        lemma_survivors_are(shards, (n - 1) as nat, rows);
    }
}

proof fn lemma_survivors_prefix(shards: Seq<Option<Seq<u8>>>, n: nat, m: nat)
    requires
        n <= m <= shards.len(),
    ensures
        survivors(shards, n).is_prefix_of(survivors(shards, m)),
    decreases m,
{
    if n < m {
        lemma_survivors_prefix(shards, n, (m - 1) as nat);
    }
}

/// The lengths that are held against each other are those of the first `k` shards
/// that are there, all of them.
pub proof fn lemma_first_lengths_count(shards: Seq<Option<Seq<u8>>>, k: nat, rows: Seq<int>)
    requires
        1 <= k,
        rows.len() == k,
        all_there(shards, rows.last() + 1, rows),
        rows.last() < shards.len(),
    ensures
        leading_lengths_agree(shards, k) <==> forall|i: int, j: int|
            0 <= i < k && 0 <= j < k ==> (#[trigger] shards[rows[i]])->0.len() == (
            #[trigger] shards[rows[j]])->0.len(),
{
    let at = survivors(shards, shards.len());
    assert(0 <= rows[k - 1]);
    let n = (rows.last() + 1) as nat;
    lemma_survivors_are(shards, n, rows);
    lemma_survivors_prefix(shards, n, shards.len());
    assert forall|j: int| 0 <= j < k implies #[trigger] rows[j] == at[j] by {
        assert(survivors(shards, n)[j] == at[j]);
    }
    if leading_lengths_agree(shards, k) {
        assert forall|i: int, j: int| 0 <= i < k && 0 <= j < k implies (
        #[trigger] shards[rows[i]])->0.len() == (#[trigger] shards[rows[j]])->0.len() by {
            assert(rows[i] == at[i] && rows[j] == at[j] && rows[0] == at[0]);
            assert(shards[at[i]].unwrap().len() == shards[at[0]].unwrap().len());
            assert(shards[at[j]].unwrap().len() == shards[at[0]].unwrap().len());
        }
    }
    if forall|i: int, j: int|
        0 <= i < k && 0 <= j < k ==> (#[trigger] shards[rows[i]])->0.len() == (
        #[trigger] shards[rows[j]])->0.len() {
        assert forall|j: int| 0 <= j < k implies shards[#[trigger] at[j]].unwrap().len()
            == shards[at[0]].unwrap().len() by {
            assert(rows[j] == at[j] && rows[0] == at[0]);
            assert(shards[rows[j]]->0.len() == shards[rows[0]]->0.len());
        }
    }
}

/// Rebuilding leaves the shards that are there as they are, and makes the
/// missing ones those of the data that the first `k` of them stand for. Whether
/// the others fit in with these is not looked at.
pub proof fn lemma_rebuilt_from_the_first(
    g: Entries,
    k: nat,
    m: nat,
    data: Seq<Seq<u8>>,
    len: nat,
    rows: Seq<int>,
    before: Seq<Option<Seq<u8>>>,
    after: Seq<Option<Seq<u8>>>,
)
    requires
        systematic(g, k, m),
        1 <= k,
        k + m <= 255,
        equal_length(data, k, len),
        before.len() == k + m,
        rows.len() == k,
        all_there(before, rows.last() + 1, rows),
        rows.last() < k + m,
        forall|j: int|
            0 <= j < k ==> before[#[trigger] rows[j]] == Some(shard_of(g, data, k, len, rows[j])),
        rebuilt(g, k, before, after),
    ensures
        after.len() == k + m,
        forall|i: int|
            0 <= i < k + m ==> #[trigger] after[i] == (if before[i] is Some {
                before[i]
            } else {
                Some(shard_of(g, data, k, len, i))
            }),
{
    let found = choose|d: Seq<Seq<u8>>| rebuilt_from(g, k, d, before, after);
    let at = survivors(before, before.len());
    assert(0 <= rows[k - 1]);
    let n = (rows.last() + 1) as nat;
    lemma_survivors_are(before, n, rows);
    lemma_survivors_prefix(before, n, before.len());
    assert forall|j: int| 0 <= j < k implies #[trigger] rows[j] == at[j] by {
        assert(survivors(before, n)[j] == at[j]);
    }
    assert(before[rows[0]] == Some(shard_of(g, data, k, len, rows[0])));
    assert forall|j: int| 0 <= j < k implies shard_of(g, found, k, len, #[trigger] rows[j])
        == shard_of(g, data, k, len, rows[j]) by {
        assert(before[at[j]] == Some(shard_of(g, found, k, len, at[j])));
    }
    lemma_data_determined(g, k, m, rows, found, data, len);
}

/// The code is systematic: its first `k` shards are the data itself.
pub proof fn lemma_data_passes_through(
    g: Entries,
    k: nat,
    m: nat,
    data: Seq<Seq<u8>>,
    len: nat,
    row: int,
)
    requires
        systematic(g, k, m),
        equal_length(data, k, len),
        0 <= row < k,
    ensures
        shard_of(g, data, k, len, row) == data[row],
{
    assert(data[row].len() == len);
    assert forall|pos: int| 0 <= pos < len implies #[trigger] shard_of(g, data, k, len, row)[pos]
        == data[row][pos] by {
        assert forall|c: int| 0 <= c < k implies #[trigger] g(row, c) == identity_at(row, c) by {
            lemma_systematic_top(g, k, m, row, c);
        }
        lemma_apply_identity(g, |i: int| data[i][pos], k, row);
    }
    assert(shard_of(g, data, k, len, row) =~= data[row]);
}

/// At most `m` missing shards out of `k + m` leave at least `k`.
pub proof fn lemma_enough_survivors(shards: Seq<Option<Seq<u8>>>, n: nat)
    requires
        n <= shards.len(),
    ensures
        survivors(shards, n).len() + missing(shards, n) == n,
    decreases n,
{
    if n > 0 {
        lemma_enough_survivors(shards, (n - 1) as nat);
    }
}

/// How many of the first `n` shards are missing.
pub open spec fn missing(shards: Seq<Option<Seq<u8>>>, n: nat) -> nat
    decreases n,
{
    if n == 0 {
        0
    } else {
        missing(shards, (n - 1) as nat) + if shards[n - 1] is None {
            1nat
        } else {
            0nat
        }
    }
}

/// `p` are the coefficients of a polynomial of `k` terms whose values at the
/// points 1, 2, 3 and so on are the bytes at `pos` of the `k + m` shards.
pub open spec fn runs_through(
    p: spec_fn(int) -> u8,
    g: Entries,
    data: Seq<Seq<u8>>,
    k: nat,
    m: nat,
    pos: int,
) -> bool {
    forall|row: int|
        0 <= row < k + m ==> #[trigger] coded(g, data, k, row, pos) == poly(
            p,
            (row + 1) as u8,
            0,
            k as int,
        )
}

/// The bytes of all shards at one position, data and parity, are the values of
/// one polynomial with as many terms as there are data shards, taken at the
/// points 1, 2, 3 and so on. (As many of its values fix it.)
pub proof fn lemma_shards_lie_on_a_polynomial(
    g: Entries,
    data: Seq<Seq<u8>>,
    k: nat,
    m: nat,
    pos: int,
)
    requires
        systematic(g, k, m),
        k + m <= 255,
    ensures
        exists|p: spec_fn(int) -> u8| runs_through(p, g, data, k, m, pos),
{
    let t = choose|t: Entries| systematic_via(g, t, k, m);
    let d = |i: int| data[i][pos];
    let p = apply(t, d, k);
    let v = vandermonde();
    assert forall|row: int| 0 <= row < k + m implies #[trigger] coded(g, data, k, row, pos) == poly(
        p,
        (row + 1) as u8,
        0,
        k as int,
    ) by {
        let x = (row + 1) as u8;
        lemma_apply_associative(v, t, d, k, k, row);
        let lhs = |c: int| prod(g(row, c), d(c));
        let rhs = |c: int| prod(times(v, t, k)(row, c), d(c));
        assert forall|c: int| 0 <= c < k implies #[trigger] lhs(c) == rhs(c) by {
            assert(g(row, c) == mul_at(v, t, k, row, c));
        }
        lemma_sum_ext(lhs, rhs, k);
        lemma_poly_is_sum(p, x, k);
        let terms = |i: int| prod(power(x, i as nat), p(i));
        let row_terms = |i: int| prod(v(row, i), p(i));
        lemma_sum_ext(terms, row_terms, k);
        assert(coded(g, data, k, row, pos) == sum(lhs, k));
        assert(apply_at(times(v, t, k), d, k, row) == sum(rhs, k));
        assert(apply_at(v, p, k, row) == sum(row_terms, k));
    }
    assert(runs_through(p, g, data, k, m, pos));
}

pub struct ReedSolomon {
    k: usize,
    m: usize,
    encode_matrix: Matrix,
    mul_tables: Vec<Vec<[u8; 256]>>,
}

impl ReedSolomon {
    pub closed spec fn wf(&self) -> bool {
        &&& 1 <= self.k
        &&& 1 <= self.m
        &&& self.k + self.m <= 255
        &&& self.encode_matrix.wf()
        &&& self.encode_matrix.height() == self.k + self.m
        &&& self.encode_matrix.width() == self.k
        &&& systematic(self.matrix(), self.data_count(), self.parity_count())
        &&& self.mul_tables@.len() == self.m
        &&& forall|j: int| 0 <= j < self.m ==> #[trigger] self.mul_tables@[j]@.len() == self.k
        &&& forall|j: int, i: int, x: int|
            0 <= j < self.m && 0 <= i < self.k && 0 <= x < 256
                ==> #[trigger] self.mul_tables@[j]@[i]@[x] == prod(self.matrix()(self.k + j, i), x as u8)
    }

    /// The number of data shards.
    pub closed spec fn data_count(&self) -> nat {
        self.k as nat
    }

    /// The number of parity shards.
    pub closed spec fn parity_count(&self) -> nat {
        self.m as nat
    }

    /// The encoding matrix.
    pub closed spec fn matrix(&self) -> Entries {
        self.encode_matrix.entries()
    }

    /// What holds of every codec.
    pub proof fn lemma_codec(&self)
        requires
            self.wf(),
        ensures
            1 <= self.data_count(),
            1 <= self.parity_count(),
            self.data_count() + self.parity_count() <= 255,
            systematic(self.matrix(), self.data_count(), self.parity_count()),
    {
    }

    pub fn new(k: usize, m: usize) -> (rs: ReedSolomon)
        requires
            1 <= k,
            1 <= m,
            k + m <= 255,
        ensures
            rs.wf(),
            rs.data_count() == k,
            rs.parity_count() == m,
    {
        let encode_matrix = Matrix::vandermonde_systematic(k, m);
        let ghost g = encode_matrix.entries();
        let mut mul_tables: Vec<Vec<[u8; 256]>> = Vec::new();
        for j in 0..m
            invariant
                k + m <= 255,
                encode_matrix.wf(),
                encode_matrix.height() == k + m,
                encode_matrix.width() == k,
                g == encode_matrix.entries(),
                mul_tables@.len() == j,
                forall|a: int| 0 <= a < j ==> #[trigger] mul_tables@[a]@.len() == k,
                forall|a: int, i: int, x: int|
                    0 <= a < j && 0 <= i < k && 0 <= x < 256
                        ==> #[trigger] mul_tables@[a]@[i]@[x] == prod(g(k + a, i), x as u8),
        {
            let mut row: Vec<[u8; 256]> = Vec::new();
            for i in 0..k
                invariant
                    k + m <= 255,
                    j < m,
                    encode_matrix.wf(),
                    encode_matrix.height() == k + m,
                    encode_matrix.width() == k,
                    g == encode_matrix.entries(),
                    row@.len() == i,
                    forall|a: int, x: int|
                        0 <= a < i && 0 <= x < 256 ==> #[trigger] row@[a]@[x] == prod(
                            g(k + j, a),
                            x as u8,
                        ),
            {
                let coeff: u8 = encode_matrix.get(k + j, i);
                let mut table: [u8; 256] = [0u8; 256];
                for x in 0..256usize
                    invariant
                        forall|y: int| 0 <= y < x ==> #[trigger] table@[y] == prod(coeff, y as u8),
                {
                    table[x] = gf::mul(coeff, x as u8);
                }
                row.push(table);
            }
            mul_tables.push(row);
        }
        ReedSolomon { k, m, encode_matrix, mul_tables }
    }

    pub fn data_shard_count(&self) -> (n: usize)
        ensures
            n == self.data_count(),
    {
        self.k
    }

    pub fn parity_shard_count(&self) -> (n: usize)
        ensures
            n == self.parity_count(),
    {
        self.m
    }

    pub fn shard_count(&self) -> (n: usize)
        requires
            self.wf(),
        ensures
            n == self.data_count() + self.parity_count(),
    {
        self.k + self.m
    }

    /// Encodes k equal-length data shards and returns the m parity shards.
    /// The caller is responsible for padding shards to equal length.
    pub fn encode(&self, data_shards: &[Vec<u8>]) -> (parity: Vec<Vec<u8>>)
        requires
            self.wf(),
            equal_length(contents(data_shards@), self.data_count(), data_shards@[0]@.len()),
        ensures
            contents(parity@) == Seq::new(
                self.parity_count(),
                |j: int|
                    shard_of(
                        self.matrix(),
                        contents(data_shards@),
                        self.data_count(),
                        data_shards@[0]@.len(),
                        self.data_count() + j,
                    ),
            ),
    {
        let ghost data = contents(data_shards@);
        let ghost g = self.matrix();
        let ghost k = self.data_count();
        assert(data.len() == self.k);
        let shard_len: usize = data_shards[0].len();
        let mut parity: Vec<Vec<u8>> = Vec::new();
        for j in 0..self.m
            invariant
                self.wf(),
                data == contents(data_shards@),
                g == self.matrix(),
                k == self.data_count(),
                equal_length(data, k, shard_len as nat),
                parity@.len() == j,
                forall|a: int|
                    0 <= a < j ==> #[trigger] parity@[a]@ == shard_of(
                        g,
                        data,
                        k,
                        shard_len as nat,
                        k + a,
                    ),
        {
            let mut par: Vec<u8> = vec![0u8; shard_len];
            for i in 0..self.k
                invariant
                    self.wf(),
                    j < self.m,
                    data == contents(data_shards@),
                    g == self.matrix(),
                    k == self.data_count(),
                    equal_length(data, k, shard_len as nat),
                    par@.len() == shard_len,
                    forall|pos: int|
                        0 <= pos < shard_len ==> #[trigger] par@[pos] == sum(
                            |t: int| prod(g(k + j, t), data[t][pos]),
                            i as nat,
                        ),
            {
                assert(data[i as int].len() == shard_len);
                let bytes: &Vec<u8> = &data_shards[i];
                for pos in 0..shard_len
                    invariant
                        self.wf(),
                        j < self.m,
                        i < self.k,
                        data == contents(data_shards@),
                        g == self.matrix(),
                        k == self.data_count(),
                        i < data.len(),
                        bytes@ == data[i as int],
                        bytes@.len() == shard_len,
                        par@.len() == shard_len,
                        forall|q: int|
                            0 <= q < shard_len ==> #[trigger] par@[q] == sum(
                                |t: int| prod(g(k + j, t), data[t][q]),
                                (i + if q < pos {
                                    1int
                                } else {
                                    0
                                }) as nat,
                            ),
                {
                    let b: u8 = bytes[pos];
                    let term: u8 = self.mul_tables[j][i][b as usize];
                    let ghost f = |t: int| prod(g(k + j, t), data[t][pos as int]);
                    assert(self.mul_tables@[j as int]@[i as int]@[b as int] == prod(
                        g(k + j, i as int),
                        b,
                    ));
                    assert(sum(f, (i + 1) as nat) == sum(f, i as nat) ^ f(i as int));
                    let v: u8 = par[pos];
                    par[pos] = v ^ term;
                }
            }
            proof {
                assert forall|pos: int| 0 <= pos < shard_len implies #[trigger] par@[pos] == shard_of(
                    g,
                    data,
                    k,
                    shard_len as nat,
                    k + j,
                )[pos] by {
                    let v = |i: int| data[i][pos];
                    lemma_sum_ext(
                        |t: int| prod(g(k + j, t), data[t][pos]),
                        |t: int| prod(g(k + j, t), v(t)),
                        k,
                    );
                }
                assert(par@ =~= shard_of(g, data, k, shard_len as nat, k + j));
            }
            parity.push(par);
        }
        parity
    }

    /// Rebuilds any missing shards (entries that are `None`) given at least k
    /// survivors. The first k survivors must all have the same length.
    pub fn reconstruct(&self, shards: &mut [Option<Vec<u8>>]) -> (res: Result<(), EcError>)
        requires
            self.wf(),
        ensures
            ({
                let n = self.data_count() + self.parity_count();
                let before = present(old(shards)@);
                let after = present(final(shards)@);
                let alive = survivors(before, before.len()).len();
                match res {
                    Ok(()) => {
                        &&& before.len() == n
                        &&& alive >= self.data_count()
                        &&& leading_lengths_agree(before, self.data_count())
                        &&& rebuilt(self.matrix(), self.data_count(), before, after)
                    },
                    Err(EcError::TooFewShards) => {
                        &&& before.len() == n
                        &&& alive < self.data_count()
                        &&& after == before
                    },
                    Err(EcError::InconsistentShards) => {
                        &&& before.len() != n || (alive >= self.data_count()
                            && !leading_lengths_agree(before, self.data_count()))
                        &&& after == before
                    },
                }
            }),
    {
        let n: usize = self.k + self.m;
        if shards.len() != n {
            return Err(EcError::InconsistentShards);
        }
        let ghost before = present(shards@);
        let ghost at = survivors(before, before.len());
        let ghost g = self.matrix();
        let ghost k = self.data_count();
        proof {
            lemma_survivors(before, before.len());
        }
        let alive: Vec<usize> = present_positions(shards);
        if alive.len() < self.k {
            return Err(EcError::TooFewShards);
        }
        assert(located(before, at, alive@)) by {
            assert forall|i: int| 0 <= i < at.len() implies alive@[i] == #[trigger] at[i] && at[i]
                < before.len() && before[at[i]] is Some by {
                assert(alive@[i] == at[i]);
            }
        }
        assert(alive@[0] as int == at[0]);
        let shard_len: usize = match &shards[alive[0]] {
            Some(s) => s.len(),
            None => 0,
        };
        for j in 0..self.k
            invariant
                self.wf(),
                k == self.data_count(),
                before == present(shards@),
                at == survivors(before, before.len()),
                shards@.len() == before.len(),
                k <= at.len(),
                located(before, at, alive@),
                shard_len == before[at[0]].unwrap().len(),
                forall|i: int| 0 <= i < j ==> before[#[trigger] at[i]].unwrap().len() == shard_len,
        {
            assert(alive@[j as int] == at[j as int]);
            assert(before[at[j as int]] is Some);
            let len: usize = match &shards[alive[j]] {
                Some(s) => s.len(),
                None => 0,
            };
            if len != shard_len {
                assert(before[at[j as int]].unwrap().len() != shard_len);
                return Err(EcError::InconsistentShards);
            }
        }
        assert(self.k * self.k <= 65025 && 2 * self.k * self.k <= 130050) by (nonlinear_arith)
            requires
                0 <= self.k <= 255,
        ;
        let ghost rows = at.take(k as int);
        let mut sub = Matrix::new(self.k, self.k);
        for r in 0..self.k
            invariant
                self.wf(),
                k == self.data_count(),
                g == self.matrix(),
                rows == at.take(k as int),
                k <= at.len(),
                before.len() == self.k + self.m,
                located(before, at, alive@),
                sub.wf(),
                sub.height() == self.k,
                sub.width() == self.k,
                forall|i: int, c: int|
                    sub.holds(i, c) && i < r ==> #[trigger] sub.at(i, c) == selected(g, rows)(i, c),
        {
            assert(alive@[r as int] == at[r as int]);
            let si: usize = alive[r];
            for c in 0..self.k
                invariant
                    self.wf(),
                    r < self.k,
                    g == self.matrix(),
                    k == self.data_count(),
                    k <= at.len(),
                    rows == at.take(k as int),
                    si == at[r as int],
                    si < self.k + self.m,
                    sub.wf(),
                    sub.height() == self.k,
                    sub.width() == self.k,
                    forall|i: int, j: int|
                        sub.holds(i, j) && (i < r || (i == r && j < c)) ==> #[trigger] sub.at(i, j)
                            == selected(g, rows)(i, j),
            {
                sub.set(r, c, self.encode_matrix.get(si, c));
            }
        }
        let inv = match sub.invert() {
            Some(inv) => inv,
            None => {
                proof {
                    lemma_every_submatrix_nonsingular(g, k, self.parity_count(), rows);
                    crate::matrix::lemma_trivial_kernel_ext(selected(g, rows), sub.entries(), k);
                    assert(false);
                }
                return Err(EcError::InconsistentShards);
            },
        };
        let ghost t = inv.entries();
        let ghost data = decoded(t, before, rows, k, shard_len as nat);
        proof {
            crate::matrix::lemma_inverse_pair_ext(sub.entries(), selected(g, rows), t, k);
            assert forall|j: int| 0 <= j < k implies before[#[trigger] rows[j]] is Some
                && before[rows[j]].unwrap().len() == shard_len by {
                assert(before[at[j]].unwrap().len() == shard_len);
                assert(alive@[j] == at[j]);
            }
            lemma_decoded(g, t, before, rows, k, shard_len as nat);
        }
        for mi in 0..n
            invariant
                self.wf(),
                n == self.k + self.m,
                k == self.data_count(),
                g == self.matrix(),
                before.len() == n,
                shards@.len() == n,
                at.len() >= k,
                rows == at.take(k as int),
                k <= at.len(),
                located(before, at, alive@),
                forall|j: int| 0 <= j < k ==> before[#[trigger] rows[j]].unwrap().len() == shard_len,
                inv.wf(),
                inv.height() == k,
                inv.width() == k,
                t == inv.entries(),
                data == decoded(t, before, rows, k, shard_len as nat),
                forall|i: int|
                    0 <= i < n ==> #[trigger] present(shards@)[i] == (if before[i] is None && i < mi {
                        Some(shard_of(g, data, k, shard_len as nat, i))
                    } else {
                        before[i]
                    }),
        {
            let ghost mid = present(shards@);
            assert(mid[mi as int] == before[mi as int]);
            let gone: bool = match &shards[mi] {
                Some(_) => false,
                None => true,
            };
            if gone {
                let mut rebuilt_shard: Vec<u8> = vec![0u8; shard_len];
                for j in 0..self.k
                    invariant
                        self.wf(),
                        mi < n,
                        n == self.k + self.m,
                        k == self.data_count(),
                        g == self.matrix(),
                        before.len() == n,
                        shards@.len() == n,
                        at.len() >= k,
                        rows == at.take(k as int),
                        k <= at.len(),
                        located(before, at, alive@),
                        forall|i: int|
                            0 <= i < k ==> before[#[trigger] rows[i]].unwrap().len() == shard_len,
                        inv.wf(),
                        inv.height() == k,
                        inv.width() == k,
                        t == inv.entries(),
                        mid == present(shards@),
                        forall|i: int|
                            0 <= i < n ==> #[trigger] mid[i] == (if before[i] is None && i < mi {
                                Some(shard_of(g, data, k, shard_len as nat, i))
                            } else {
                                before[i]
                            }),
                        rebuilt_shard@.len() == shard_len,
                        forall|pos: int|
                            0 <= pos < shard_len ==> #[trigger] rebuilt_shard@[pos] == sum(
                                |i: int|
                                    prod(
                                        times(g, t, k)(mi as int, i),
                                        before[rows[i]].unwrap()[pos],
                                    ),
                                j as nat,
                            ),
                {
                    let mut coeff: u8 = 0;
                    let ghost f = |i: int| prod(g(mi as int, i), t(i, j as int));
                    for i in 0..self.k
                        invariant
                            self.wf(),
                            mi < n,
                            j < self.k,
                            n == self.k + self.m,
                            k == self.data_count(),
                            g == self.matrix(),
                            inv.wf(),
                            inv.height() == k,
                            inv.width() == k,
                            t == inv.entries(),
                            f == (|i: int| prod(g(mi as int, i), t(i, j as int))),
                            coeff == sum(f, i as nat),
                    {
                        coeff = gf::add(
                            coeff,
                            gf::mul(self.encode_matrix.get(mi, i), inv.get(i, j)),
                        );
                        assert(coeff == sum(f, i as nat) ^ f(i as int));
                    }
                    assert(coeff == times(g, t, k)(mi as int, j as int));
                    assert(alive@[j as int] == at[j as int]);
                    assert(rows[j as int] == at[j as int]);
                    assert(mid[at[j as int]] == before[at[j as int]]);
                    match &shards[alive[j]] {
                        Some(s) => {
                            for pos in 0..shard_len
                                invariant
                                    s@.len() == shard_len,
                                    s@ == before[rows[j as int]].unwrap(),
                                    coeff == times(g, t, k)(mi as int, j as int),
                                    rebuilt_shard@.len() == shard_len,
                                    forall|q: int|
                                        0 <= q < shard_len ==> #[trigger] rebuilt_shard@[q] == sum(
                                            |i: int|
                                                prod(
                                                    times(g, t, k)(mi as int, i),
                                                    before[rows[i]].unwrap()[q],
                                                ),
                                            (j + if q < pos {
                                                1int
                                            } else {
                                                0
                                            }) as nat,
                                        ),
                            {
                                let ghost h = |i: int|
                                    prod(
                                        times(g, t, k)(mi as int, i),
                                        before[rows[i]].unwrap()[pos as int],
                                    );
                                assert(sum(h, (j + 1) as nat) == sum(h, j as nat) ^ h(j as int));
                                let v: u8 = rebuilt_shard[pos];
                                rebuilt_shard[pos] = v ^ gf::mul(coeff, s[pos]);
                            }
                        },
                        None => {
                            assert(false);
                        },
                    }
                }
                proof {
                    assert forall|pos: int| 0 <= pos < shard_len implies
                        #[trigger] rebuilt_shard@[pos] == shard_of(
                        g,
                        data,
                        k,
                        shard_len as nat,
                        mi as int,
                    )[pos] by {
                        lemma_decoded_row(g, t, before, rows, k, shard_len as nat, mi as int, pos);
                    }
                    assert(rebuilt_shard@ =~= shard_of(g, data, k, shard_len as nat, mi as int));
                }
                shards[mi] = Some(rebuilt_shard);
                assert forall|i: int| 0 <= i < n implies #[trigger] present(shards@)[i] == (if before[i] is None
                    && i < mi + 1 {
                    Some(shard_of(g, data, k, shard_len as nat, i))
                } else {
                    before[i]
                }) by {
                    assert(mid[i] == mid[i]);
                }
            }
        }
        proof {
            assert forall|j: int| 0 <= j < k implies before[#[trigger] at[j]] == Some(
                shard_of(g, data, k, shard_len as nat, at[j]),
            ) by {
                assert(rows[j] == at[j]);
            }
            assert(rebuilt_from(g, k, data, before, present(shards@)));
        }
        Ok(())
    }
}

/// `alive` holds the positions `at`, each of a shard that is there.
spec fn located(shards: Seq<Option<Seq<u8>>>, at: Seq<int>, alive: Seq<usize>) -> bool {
    &&& alive.len() == at.len()
    &&& forall|i: int|
        0 <= i < at.len() ==> alive[i] == #[trigger] at[i] && at[i] < shards.len()
            && shards[at[i]] is Some
}

/// The positions of the shards that are there.
fn present_positions(shards: &[Option<Vec<u8>>]) -> (out: Vec<usize>)
    ensures
        out@.len() == survivors(present(shards@), shards@.len()).len(),
        forall|i: int|
            0 <= i < out@.len() ==> #[trigger] out@[i] == survivors(present(shards@), shards@.len())[i],
{
    let mut out: Vec<usize> = Vec::new();
    for i in 0..shards.len()
        invariant
            out@.len() == survivors(present(shards@), i as nat).len(),
            forall|j: int|
                0 <= j < out@.len() ==> #[trigger] out@[j] == survivors(present(shards@), i as nat)[j],
    {
        assert(present(shards@)[i as int] is Some <==> shards@[i as int] is Some);
        if shards[i].is_some() {
            out.push(i);
        }
    }
    out
}

/// The data that the shards at `rows` encode, found with the inverse `t` of
/// those rows of the encoding matrix.
spec fn decoded(
    t: Entries,
    shards: Seq<Option<Seq<u8>>>,
    rows: Seq<int>,
    k: nat,
    len: nat,
) -> Seq<Seq<u8>> {
    Seq::new(
        k,
        |i: int|
            Seq::new(len, |pos: int| apply_at(t, |j: int| shards[rows[j]].unwrap()[pos], k, i)),
    )
}

/// Encoding the decoded data is applying `g * t` to the shards.
proof fn lemma_decoded_row(
    g: Entries,
    t: Entries,
    shards: Seq<Option<Seq<u8>>>,
    rows: Seq<int>,
    k: nat,
    len: nat,
    row: int,
    pos: int,
)
    requires
        0 <= pos < len,
    ensures
        coded(g, decoded(t, shards, rows, k, len), k, row, pos) == sum(
            |i: int| prod(times(g, t, k)(row, i), shards[rows[i]].unwrap()[pos]),
            k,
        ),
{
    let data = decoded(t, shards, rows, k, len);
    let v = |j: int| shards[rows[j]].unwrap()[pos];
    lemma_apply_associative(g, t, v, k, k, row);
    let p = |i: int| prod(g(row, i), (|i: int| data[i][pos])(i));
    let q = |i: int| prod(g(row, i), apply(t, v, k)(i));
    assert forall|i: int| 0 <= i < k implies #[trigger] p(i) == q(i) by {
        assert(data[i][pos] == apply_at(t, |j: int| shards[rows[j]].unwrap()[pos], k, i));
    }
    lemma_sum_ext(p, q, k);
    lemma_sum_ext(
        |i: int| prod(times(g, t, k)(row, i), shards[rows[i]].unwrap()[pos]),
        |i: int| prod(times(g, t, k)(row, i), v(i)),
        k,
    );
}

/// The decoded data encodes to the shards that it was found from.
proof fn lemma_decoded(
    g: Entries,
    t: Entries,
    shards: Seq<Option<Seq<u8>>>,
    rows: Seq<int>,
    k: nat,
    len: nat,
)
    requires
        inverse_pair(selected(g, rows), t, k),
        forall|j: int|
            0 <= j < k ==> (#[trigger] shards[rows[j]]) is Some && shards[rows[j]].unwrap().len()
                == len,
    ensures
        equal_length(decoded(t, shards, rows, k, len), k, len),
        forall|j: int|
            0 <= j < k ==> shards[#[trigger] rows[j]] == Some(
                shard_of(g, decoded(t, shards, rows, k, len), k, len, rows[j]),
            ),
{
    let data = decoded(t, shards, rows, k, len);
    let gs = selected(g, rows);
    assert forall|j: int| 0 <= j < k implies shards[#[trigger] rows[j]] == Some(
        shard_of(g, data, k, len, rows[j]),
    ) by {
        let shard = shards[rows[j]].unwrap();
        assert forall|pos: int| 0 <= pos < len implies #[trigger] shard[pos] == shard_of(
            g,
            data,
            k,
            len,
            rows[j],
        )[pos] by {
            lemma_decoded_row(g, t, shards, rows, k, len, rows[j], pos);
            let v = |i: int| shards[rows[i]].unwrap()[pos];
            let gt = times(gs, t, k);
            assert forall|c: int| 0 <= c < k implies #[trigger] gt(j, c) == identity_at(j, c) by {
                assert(mul_at(gs, t, k, j, c) == identity_at(j, c));
            }
            lemma_apply_identity(gt, v, k, j);
            let p = |i: int| prod(gt(j, i), v(i));
            let q = |i: int| prod(times(g, t, k)(rows[j], i), shards[rows[i]].unwrap()[pos]);
            assert forall|i: int| 0 <= i < k implies #[trigger] p(i) == q(i) by {
                lemma_sum_ext(
                    |l: int| prod(gs(j, l), t(l, i)),
                    |l: int| prod(g(rows[j], l), t(l, i)),
                    k,
                );
            }
            lemma_sum_ext(p, q, k);
        }
        assert(shard =~= shard_of(g, data, k, len, rows[j]));
        assert(shards[rows[j]] is Some);
    }
}

} // verus!
