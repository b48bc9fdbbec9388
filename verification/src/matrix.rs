//! Dense GF(2^8) matrices: multiplication, Gaussian-elimination inversion,
//! and the systematic Vandermonde encoding matrix.

use vstd::prelude::*;

use crate::gf;
use crate::gf::{lemma_mul_commutative, lemma_mul_inverse, lemma_mul_units, lemma_add_laws, prod};
use crate::linalg::{
    apply, apply_at, identity_at, in_kernel, inverse_pair, is_product, lemma_apply_associative,
    lemma_apply_identity, lemma_kernel_pulled_back, lemma_poly_is_sum, lemma_poly_roots,
    lemma_row_added, lemma_row_equivalent_ext, lemma_row_equivalent_identity, lemma_row_scaled,
    lemma_rows_swapped, lemma_sum_ext, lemma_sum_zero, lemma_times_associative, mul_at, poly, power,
    row_added, row_equivalent, row_scaled, same_entries, selected, sum, times, trivial_kernel,
    Entries,
};

verus! {

#[derive(Debug, Clone, PartialEq, Eq)]
pub struct Matrix {
    rows: usize,
    cols: usize,
    data: Vec<u8>,
}

proof fn lemma_index(r: int, c: int, rows: int, cols: int)
    by (nonlinear_arith)
    requires
        0 <= r < rows,
        0 <= c < cols,
    ensures
        0 <= r * cols,
        0 <= r * cols + c < rows * cols,
{
}

proof fn lemma_index_injective(r: int, c: int, r2: int, c2: int, cols: int)
    requires
        0 <= c < cols,
        0 <= c2 < cols,
        r * cols + c == r2 * cols + c2,
    ensures
        r == r2,
        c == c2,
{
    assert((r - r2) * cols == c2 - c) by (nonlinear_arith)
        requires
            r * cols + c == r2 * cols + c2,
    ;
    assert(r == r2) by (nonlinear_arith)
        requires
            (r - r2) * cols == c2 - c,
            -cols < c2 - c < cols,
    ;
}

impl Matrix {
    /// The storage holds exactly one element per row and column.
    pub closed spec fn wf(&self) -> bool {
        self.data@.len() == self.rows * self.cols
    }

    /// The number of rows.
    pub closed spec fn height(&self) -> nat {
        self.rows as nat
    }

    /// The number of columns.
    pub closed spec fn width(&self) -> nat {
        self.cols as nat
    }

    /// The element in row `r` and column `c`.
    pub closed spec fn at(&self, r: int, c: int) -> u8 {
        self.data@[r * self.cols + c]
    }

    pub open spec fn entries(&self) -> Entries {
        |r: int, c: int| self.at(r, c)
    }

    /// `(r, c)` is a position in the matrix.
    pub open spec fn holds(&self, r: int, c: int) -> bool {
        0 <= r < self.height() && 0 <= c < self.width()
    }

    /// The product of `self` and `inv`, in both orders, is the identity.
    pub open spec fn inverted_by(&self, inv: &Matrix) -> bool {
        &&& inv.wf()
        &&& inv.height() == self.height()
        &&& inv.width() == self.height()
        &&& inverse_pair(self.entries(), inv.entries(), self.height())
    }

    /// Square, and no nonzero vector is taken to zero.
    pub open spec fn nonsingular(&self) -> bool {
        self.height() == self.width() && trivial_kernel(self.entries(), self.height())
    }

    /// The zero matrix.
    pub fn new(rows: usize, cols: usize) -> (m: Matrix)
        requires
            rows * cols <= usize::MAX,
        ensures
            m.wf(),
            m.height() == rows,
            m.width() == cols,
            forall|r: int, c: int| m.holds(r, c) ==> #[trigger] m.at(r, c) == 0,
    {
        assert(0 <= rows * cols) by (nonlinear_arith);
        let m = Matrix { rows, cols, data: vec![0; rows * cols] };
        assert forall|r: int, c: int| m.holds(r, c) implies #[trigger] m.at(r, c) == 0 by {
            lemma_index(r, c, rows as int, cols as int);
        }
        m
    }

    pub fn identity(n: usize) -> (m: Matrix)
        requires
            n * n <= usize::MAX,
        ensures
            m.wf(),
            m.height() == n,
            m.width() == n,
            forall|r: int, c: int| m.holds(r, c) ==> #[trigger] m.at(r, c) == identity_at(r, c),
    {
        let mut m = Matrix::new(n, n);
        for i in 0..n
            invariant
                m.wf(),
                m.height() == n,
                m.width() == n,
                forall|r: int, c: int|
                    m.holds(r, c) ==> #[trigger] m.at(r, c) == (if r < i {
                        identity_at(r, c)
                    } else {
                        0
                    }),
        {
            m.set(i, i, 1);
        }
        m
    }

    pub fn rows(&self) -> (n: usize)
        ensures
            n == self.height(),
    {
        self.rows
    }

    pub fn cols(&self) -> (n: usize)
        ensures
            n == self.width(),
    {
        self.cols
    }

    pub fn get(&self, r: usize, c: usize) -> (v: u8)
        requires
            self.wf(),
            self.holds(r as int, c as int),
        ensures
            v == self.at(r as int, c as int),
    {
        proof {
            lemma_index(r as int, c as int, self.rows as int, self.cols as int);
            assert(self.data.len() == self.rows * self.cols);
        }
        self.data[r * self.cols + c]
    }

    pub fn set(&mut self, r: usize, c: usize, v: u8)
        requires
            old(self).wf(),
            old(self).holds(r as int, c as int),
        ensures
            final(self).wf(),
            final(self).height() == old(self).height(),
            final(self).width() == old(self).width(),
            forall|i: int, j: int|
                old(self).holds(i, j) ==> #[trigger] final(self).at(i, j) == (if i == r && j == c {
                    v
                } else {
                    old(self).at(i, j)
                }),
    {
        proof {
            lemma_index(r as int, c as int, self.rows as int, self.cols as int);
            assert(self.data.len() == self.rows * self.cols);
        }
        self.data[r * self.cols + c] = v;
        assert forall|i: int, j: int| old(self).holds(i, j) implies #[trigger] self.at(i, j) == (
        if i == r && j == c {
            v
        } else {
            old(self).at(i, j)
        }) by {
            lemma_index(i, j, self.rows as int, self.cols as int);
            if i * self.cols + j == r * self.cols + c {
                lemma_index_injective(i, j, r as int, c as int, self.cols as int);
            }
        }
    }

    /// The matrix product.
    pub fn mul(&self, other: &Matrix) -> (out: Matrix)
        requires
            self.wf(),
            other.wf(),
            self.width() == other.height(),
            self.height() * other.width() <= usize::MAX,
        ensures
            out.wf(),
            out.height() == self.height(),
            out.width() == other.width(),
            forall|r: int, c: int|
                out.holds(r, c) ==> #[trigger] out.at(r, c) == mul_at(
                    self.entries(),
                    other.entries(),
                    self.width(),
                    r,
                    c,
                ),
    {
        let mut out = Matrix::new(self.rows, other.cols);
        let ghost a = self.entries();
        let ghost b = other.entries();
        for r in 0..self.rows
            invariant
                self.wf(),
                other.wf(),
                self.width() == other.height(),
                out.wf(),
                out.height() == self.height(),
                out.width() == other.width(),
                a == self.entries(),
                b == other.entries(),
                forall|i: int, j: int|
                    out.holds(i, j) && i < r ==> #[trigger] out.at(i, j) == mul_at(
                        a,
                        b,
                        self.width(),
                        i,
                        j,
                    ),
        {
            for c in 0..other.cols
                invariant
                    self.wf(),
                    other.wf(),
                    self.width() == other.height(),
                    r < self.height(),
                    out.wf(),
                    out.height() == self.height(),
                    out.width() == other.width(),
                    a == self.entries(),
                    b == other.entries(),
                    forall|i: int, j: int|
                        out.holds(i, j) && (i < r || (i == r && j < c)) ==> #[trigger] out.at(i, j)
                            == mul_at(a, b, self.width(), i, j),
            {
                let mut acc: u8 = 0;
                let ghost f = |k: int| prod(a(r as int, k), b(k, c as int));
                for k in 0..self.cols
                    invariant
                        self.wf(),
                        other.wf(),
                        self.width() == other.height(),
                        r < self.height(),
                        c < other.width(),
                        a == self.entries(),
                        b == other.entries(),
                        f == (|k: int| prod(a(r as int, k), b(k, c as int))),
                        acc == sum(f, k as nat),
                {
                    acc = gf::add(acc, gf::mul(self.get(r, k), other.get(k, c)));
                    assert(acc == sum(f, k as nat) ^ f(k as int));
                }
                out.set(r, c, acc);
            }
        }
        out
    }

    /// Exchanges rows `p` and `q`.
    fn swap_rows(&mut self, p: usize, q: usize)
        requires
            old(self).wf(),
            p < old(self).height(),
            q < old(self).height(),
        ensures
            final(self).wf(),
            final(self).height() == old(self).height(),
            final(self).width() == old(self).width(),
            forall|r: int, c: int|
                old(self).holds(r, c) ==> #[trigger] final(self).at(r, c) == (if r == p {
                    old(self).at(q as int, c)
                } else if r == q {
                    old(self).at(p as int, c)
                } else {
                    old(self).at(r, c)
                }),
    {
        let cols: usize = self.cols;
        for c in 0..cols
            invariant
                self.wf(),
                cols == self.width(),
                self.height() == old(self).height(),
                self.width() == old(self).width(),
                p < self.height(),
                q < self.height(),
                forall|i: int, j: int|
                    old(self).holds(i, j) ==> #[trigger] self.at(i, j) == (if j >= c {
                        old(self).at(i, j)
                    } else if i == p {
                        old(self).at(q as int, j)
                    } else if i == q {
                        old(self).at(p as int, j)
                    } else {
                        old(self).at(i, j)
                    }),
        {
            let tmp: u8 = self.get(p, c);
            let other: u8 = self.get(q, c);
            self.set(p, c, other);
            self.set(q, c, tmp);
        }
    }

    /// Multiplies row `p` by `s`.
    fn scale_row(&mut self, p: usize, s: u8)
        requires
            old(self).wf(),
            p < old(self).height(),
        ensures
            final(self).wf(),
            final(self).height() == old(self).height(),
            final(self).width() == old(self).width(),
            same_entries(
                final(self).entries(),
                row_scaled(old(self).entries(), p as int, s),
                old(self).height(),
                old(self).width(),
            ),
    {
        let cols: usize = self.cols;
        for c in 0..cols
            invariant
                self.wf(),
                cols == self.width(),
                self.height() == old(self).height(),
                self.width() == old(self).width(),
                p < self.height(),
                forall|i: int, j: int|
                    old(self).holds(i, j) ==> #[trigger] self.at(i, j) == (if i == p && j < c {
                        prod(s, old(self).at(i, j))
                    } else {
                        old(self).at(i, j)
                    }),
        {
            let v: u8 = self.get(p, c);
            proof {
                lemma_mul_commutative(v, s);
            }
            self.set(p, c, gf::mul(v, s));
        }
    }

    /// Adds `s` times row `q` to row `p`.
    fn add_row(&mut self, p: usize, q: usize, s: u8)
        requires
            old(self).wf(),
            p < old(self).height(),
            q < old(self).height(),
            p != q,
        ensures
            final(self).wf(),
            final(self).height() == old(self).height(),
            final(self).width() == old(self).width(),
            same_entries(
                final(self).entries(),
                row_added(old(self).entries(), p as int, q as int, s),
                old(self).height(),
                old(self).width(),
            ),
    {
        let cols: usize = self.cols;
        for c in 0..cols
            invariant
                self.wf(),
                cols == self.width(),
                self.height() == old(self).height(),
                self.width() == old(self).width(),
                p < self.height(),
                q < self.height(),
                p != q,
                forall|i: int, j: int|
                    old(self).holds(i, j) ==> #[trigger] self.at(i, j) == (if i == p && j < c {
                        old(self).at(i, j) ^ prod(s, old(self).at(q as int, j))
                    } else {
                        old(self).at(i, j)
                    }),
        {
            self.set(p, c, gf::add(self.get(p, c), gf::mul(s, self.get(q, c))));
        }
    }

    /// The first row from `col` on whose element in column `col` is not zero.
    fn find_pivot(&self, col: usize) -> (pivot: Option<usize>)
        requires
            self.wf(),
            col < self.width(),
            col < self.height(),
        ensures
            match pivot {
                Some(p) => col <= p < self.height() && self.at(p as int, col as int) != 0,
                None => forall|r: int|
                    col <= r < self.height() ==> #[trigger] self.at(r, col as int) == 0,
            },
    {
        for r in col..self.rows
            invariant
                self.wf(),
                col < self.width(),
                forall|i: int| col <= i < r ==> #[trigger] self.at(i, col as int) == 0,
        {
            if self.get(r, col) != 0 {
                return Some(r);
            }
        }
        None
    }

    /// `[self | identity]`.
    fn augmented(&self) -> (aug: Matrix)
        requires
            self.wf(),
            self.height() == self.width(),
            2 * self.height() * self.height() <= usize::MAX,
        ensures
            aug.wf(),
            aug.height() == self.height(),
            aug.width() == 2 * self.height(),
            same_entries(
                aug.entries(),
                augmented_at(self.entries(), self.height()),
                self.height(),
                2 * self.height(),
            ),
    {
        let n: usize = self.rows;
        assert(n * (2 * n) <= usize::MAX && 2 * n <= usize::MAX) by (nonlinear_arith)
            requires
                2 * n * n <= usize::MAX,
                0 <= n,
                usize::MAX >= 2,
        ;
        let mut aug = Matrix::new(n, 2 * n);
        for r in 0..n
            invariant
                self.wf(),
                n == self.height(),
                n == self.width(),
                2 * n <= usize::MAX,
                aug.wf(),
                aug.height() == n,
                aug.width() == 2 * n,
                forall|i: int, j: int|
                    aug.holds(i, j) ==> #[trigger] aug.at(i, j) == (if i < r {
                        augmented_at(self.entries(), n as nat)(i, j)
                    } else {
                        0
                    }),
        {
            for c in 0..n
                invariant
                    self.wf(),
                    n == self.height(),
                    n == self.width(),
                    2 * n <= usize::MAX,
                    r < n,
                    aug.wf(),
                    aug.height() == n,
                    aug.width() == 2 * n,
                    forall|i: int, j: int|
                        aug.holds(i, j) ==> #[trigger] aug.at(i, j) == (if i < r || (i == r && j
                            < c) {
                            augmented_at(self.entries(), n as nat)(i, j)
                        } else {
                            0
                        }),
            {
                aug.set(r, c, self.get(r, c));
            }
            aug.set(r, n + r, 1);
        }
        aug
    }

    /// The inverse matrix, or `None` where there is none.
    pub fn invert(&self) -> (out: Option<Matrix>)
        requires
            self.wf(),
            self.height() == self.width() ==> 2 * self.height() * self.height() <= usize::MAX,
        ensures
            out is Some <==> self.nonsingular(),
            out matches Some(inv) ==> self.inverted_by(&inv),
    {
        if self.rows != self.cols {
            return None;
        }
        let n: usize = self.rows;
        assert(self.data.len() == n * n);
        let mut aug = self.augmented();
        let ghost a = self.entries();
        let ghost b = augmented_at(a, n as nat);
        let ghost mut e = |r: int, c: int| identity_at(r, c);
        let ghost mut f = |r: int, c: int| identity_at(r, c);
        proof {
            lemma_row_equivalent_identity(b, n as nat, (2 * n) as nat);
            lemma_row_equivalent_ext(b, b, aug.entries(), e, f, n as nat, (2 * n) as nat);
        }
        for col in 0..n
            invariant
                n == self.height(),
                n == self.width(),
                2 * n <= usize::MAX,
                aug.wf(),
                aug.height() == n,
                aug.width() == 2 * n,
                a == self.entries(),
                b == augmented_at(a, n as nat),
                row_equivalent(b, aug.entries(), e, f, n as nat, (2 * n) as nat),
                forall|r: int, c: int|
                    0 <= r < n && 0 <= c < col ==> #[trigger] aug.at(r, c) == identity_at(r, c),
        {
            let pivot: usize = match aug.find_pivot(col) {
                Some(p) => p,
                None => {
                    proof {
                        lemma_stuck_is_singular(a, aug.entries(), e, f, n as nat, col as int);
                    }
                    return None;
                },
            };
            let ghost before = aug;
            if pivot != col {
                aug.swap_rows(pivot, col);
                proof {
                    let (e1, f1) = lemma_rows_swapped(
                        b,
                        before.entries(),
                        e,
                        f,
                        n as nat,
                        (2 * n) as nat,
                        pivot as int,
                        col as int,
                        aug.entries(),
                    );
                    e = e1;
                    f = f1;
                    assert forall|r: int, c: int| 0 <= r < n && 0 <= c < col implies #[trigger] aug.at(
                        r,
                        c,
                    ) == identity_at(r, c) by {
                        assert(before.at(r, c) == identity_at(r, c));
                        assert(before.at(pivot as int, c) == identity_at(pivot as int, c));
                        assert(before.at(col as int, c) == identity_at(col as int, c));
                    }
                }
            }
            let pv: u8 = aug.get(col, col);
            let pv_inv: u8 = gf::inv(pv);
            let ghost swapped = aug;
            proof {
                lemma_mul_inverse(pv);
                let (e1, f1) = lemma_row_scaled(
                    b,
                    aug.entries(),
                    e,
                    f,
                    n as nat,
                    (2 * n) as nat,
                    col as int,
                    pv_inv,
                );
                e = e1;
                f = f1;
            }
            aug.scale_row(col, pv_inv);
            proof {
                lemma_row_equivalent_ext(
                    b,
                    row_scaled(swapped.entries(), col as int, pv_inv),
                    aug.entries(),
                    e,
                    f,
                    n as nat,
                    (2 * n) as nat,
                );
                assert forall|r: int, c: int| 0 <= r < n && 0 <= c < col implies #[trigger] aug.at(
                    r,
                    c,
                ) == identity_at(r, c) by {
                    assert(swapped.at(r, c) == identity_at(r, c));
                    assert(aug.entries()(r, c) == row_scaled(
                        swapped.entries(),
                        col as int,
                        pv_inv,
                    )(r, c));
                    lemma_mul_units(pv_inv);
                }
                assert(aug.entries()(col as int, col as int) == 1);
            }
            for r in 0..n
                invariant
                    n == self.height(),
                    2 * n <= usize::MAX,
                    col < n,
                    aug.wf(),
                    aug.height() == n,
                    aug.width() == 2 * n,
                    row_equivalent(b, aug.entries(), e, f, n as nat, (2 * n) as nat),
                    forall|i: int, c: int|
                        0 <= i < n && 0 <= c < col ==> #[trigger] aug.at(i, c) == identity_at(i, c),
                    aug.at(col as int, col as int) == 1,
                    forall|i: int|
                        0 <= i < r && i != col ==> #[trigger] aug.at(i, col as int) == 0,
            {
                if r != col {
                    let factor: u8 = aug.get(r, col);
                    if factor != 0 {
                        let ghost prev = aug;
                        proof {
                            let (e1, f1) = lemma_row_added(
                                b,
                                aug.entries(),
                                e,
                                f,
                                n as nat,
                                (2 * n) as nat,
                                r as int,
                                col as int,
                                factor,
                            );
                            e = e1;
                            f = f1;
                        }
                        aug.add_row(r, col, factor);
                        proof {
                            let sum_row = row_added(prev.entries(), r as int, col as int, factor);
                            lemma_row_equivalent_ext(
                                b,
                                sum_row,
                                aug.entries(),
                                e,
                                f,
                                n as nat,
                                (2 * n) as nat,
                            );
                            assert forall|i: int, c: int|
                                0 <= i < n && 0 <= c < col implies #[trigger] aug.at(i, c)
                                == identity_at(i, c) by {
                                assert(aug.entries()(i, c) == sum_row(i, c));
                                assert(prev.at(i, c) == identity_at(i, c));
                                assert(prev.at(col as int, c) == 0);
                                lemma_mul_units(factor);
                                lemma_add_laws(prev.at(i, c), 0, 0);
                            }
                            assert forall|i: int| 0 <= i < n implies #[trigger] aug.at(
                                i,
                                col as int,
                            ) == (if i == r {
                                0
                            } else {
                                prev.at(i, col as int)
                            }) by {
                                assert(aug.entries()(i, col as int) == sum_row(i, col as int));
                                lemma_mul_units(factor);
                                lemma_add_laws(factor, factor, 0);
                            }
                        }
                    }
                }
            }
        }
        let mut out = Matrix::new(n, n);
        for r in 0..n
            invariant
                2 * n <= usize::MAX,
                aug.wf(),
                aug.height() == n,
                aug.width() == 2 * n,
                out.wf(),
                out.height() == n,
                out.width() == n,
                forall|i: int, j: int|
                    out.holds(i, j) && i < r ==> #[trigger] out.at(i, j) == aug.at(i, n + j),
        {
            for c in 0..n
                invariant
                    r < n,
                    2 * n <= usize::MAX,
                    aug.wf(),
                    aug.height() == n,
                    aug.width() == 2 * n,
                    out.wf(),
                    out.height() == n,
                    out.width() == n,
                    forall|i: int, j: int|
                        out.holds(i, j) && (i < r || (i == r && j < c)) ==> #[trigger] out.at(i, j)
                            == aug.at(i, n + j),
            {
                out.set(r, c, aug.get(r, n + c));
            }
        }
        proof {
            lemma_reduced_is_inverse(a, aug.entries(), e, f, out.entries(), n as nat);
            lemma_inverse_trivial_kernel(a, out.entries(), n as nat);
        }
        Some(out)
    }

    /// Systematic (k+m) x k encoding matrix: the top k rows are the identity
    /// (data shards pass through) and the bottom m rows are coding rows.
    ///
    /// Built as `V * T^-1`, where `V` is the full (k+m) x k Vandermonde
    /// matrix over the points 1..=k+m and `T` is its top k x k block. Since
    /// every k-row submatrix of `V` is invertible, every k-row submatrix of
    /// the result is invertible too -- a plain `[I; V]` stack is not (e.g.
    /// k=4, m=3, rows {2,4,5,6}).
    pub fn vandermonde_systematic(k: usize, m: usize) -> (g: Matrix)
        requires
            k + m <= 255,
        ensures
            g.wf(),
            g.height() == k + m,
            g.width() == k,
            systematic(g.entries(), k as nat, m as nat),
    {
        let n: usize = k + m;
        assert(n * k <= 65025 && k * k <= 65025 && 2 * k * k <= 130050) by (nonlinear_arith)
            requires
                0 <= k <= n <= 255,
        ;
        let mut v = Matrix::new(n, k);
        for i in 0..n
            invariant
                n <= 255,
                v.wf(),
                v.height() == n,
                v.width() == k,
                forall|r: int, c: int|
                    v.holds(r, c) && r < i ==> #[trigger] v.at(r, c) == vandermonde()(r, c),
        {
            let point: u8 = i as u8 + 1;
            let mut x: u8 = 1;
            for c in 0..k
                invariant
                    i < n <= 255,
                    v.wf(),
                    v.height() == n,
                    v.width() == k,
                    point == i + 1,
                    x == power(point, c as nat),
                    forall|r: int, j: int|
                        v.holds(r, j) && (r < i || (r == i && j < c)) ==> #[trigger] v.at(r, j)
                            == vandermonde()(r, j),
            {
                v.set(i, c, x);
                x = gf::mul(x, point);
            }
        }
        let mut top = Matrix::new(k, k);
        for r in 0..k
            invariant
                k <= n,
                v.wf(),
                v.height() == n,
                v.width() == k,
                top.wf(),
                top.height() == k,
                top.width() == k,
                forall|i: int, j: int| top.holds(i, j) && i < r ==> #[trigger] top.at(i, j) == v.at(i, j),
        {
            for c in 0..k
                invariant
                    r < k <= n,
                    v.wf(),
                    v.height() == n,
                    v.width() == k,
                    top.wf(),
                    top.height() == k,
                    top.width() == k,
                    forall|i: int, j: int|
                        top.holds(i, j) && (i < r || (i == r && j < c)) ==> #[trigger] top.at(i, j)
                            == v.at(i, j),
            {
                top.set(r, c, v.get(r, c));
            }
        }
        proof {
            let rows = Seq::new(k as nat, |i: int| i);
            lemma_vandermonde_rows(rows, k as nat);
            let vs = selected(vandermonde(), rows);
            assert forall|r: int, c: int| 0 <= r < k && 0 <= c < k implies #[trigger] vs(r, c)
                == top.entries()(r, c) by {
                assert(top.at(r, c) == v.at(r, c));
            }
            lemma_trivial_kernel_ext(vs, top.entries(), k as nat);
        }
        match top.invert() {
            Some(top_inv) => {
                let g = v.mul(&top_inv);
                proof {
                    let t = top_inv.entries();
                    assert(same_entries(top.entries(), vandermonde(), k as nat, k as nat)) by {
                        assert forall|r: int, c: int| 0 <= r < k && 0 <= c < k implies
                            #[trigger] top.entries()(r, c) == vandermonde()(r, c) by {
                            assert(top.at(r, c) == v.at(r, c));
                        }
                    }
                    lemma_inverse_pair_ext(top.entries(), vandermonde(), t, k as nat);
                    assert forall|r: int, c: int| 0 <= r < k + m && 0 <= c < k implies
                        #[trigger] g.entries()(r, c) == mul_at(vandermonde(), t, k as nat, r, c) by {
                        let p = |i: int| prod(v.entries()(r, i), t(i, c));
                        let q = |i: int| prod(vandermonde()(r, i), t(i, c));
                        assert forall|i: int| 0 <= i < k implies #[trigger] p(i) == q(i) by {
                            assert(v.at(r, i) == vandermonde()(r, i));
                        }
                        lemma_sum_ext(p, q, k as nat);
                        assert(g.at(r, c) == mul_at(v.entries(), t, k as nat, r, c));
                    }
                    assert(systematic_via(g.entries(), t, k as nat, m as nat));
                }
                g
            },
            None => {
                assert(false);
                v
            },
        }
    }
}

pub(crate) proof fn lemma_trivial_kernel_ext(a: Entries, b: Entries, n: nat)
    requires
        trivial_kernel(a, n),
        same_entries(a, b, n, n),
    ensures
        trivial_kernel(b, n),
{
    assert forall|v: spec_fn(int) -> u8, j: int|
        #[trigger] in_kernel(b, v, n) && 0 <= j < n implies #[trigger] v(j) == 0 by {
        assert forall|r: int| 0 <= r < n implies #[trigger] apply_at(a, v, n, r) == 0 by {
            let p = |k: int| prod(a(r, k), v(k));
            let q = |k: int| prod(b(r, k), v(k));
            assert forall|k: int| 0 <= k < n implies #[trigger] p(k) == q(k) by {
                assert(a(r, k) == b(r, k));
            }
            lemma_sum_ext(p, q, n);
            assert(apply_at(b, v, n, r) == 0);
        }
        assert(in_kernel(a, v, n));
    }
}

pub(crate) proof fn lemma_inverse_pair_ext(a: Entries, b: Entries, t: Entries, n: nat)
    requires
        inverse_pair(a, t, n),
        same_entries(a, b, n, n),
    ensures
        inverse_pair(b, t, n),
{
    assert forall|r: int, c: int| 0 <= r < n && 0 <= c < n implies #[trigger] mul_at(t, b, n, r, c)
        == identity_at(r, c) by {
        let p = |k: int| prod(t(r, k), a(k, c));
        let q = |k: int| prod(t(r, k), b(k, c));
        assert forall|k: int| 0 <= k < n implies #[trigger] p(k) == q(k) by {
            assert(a(k, c) == b(k, c));
        }
        lemma_sum_ext(p, q, n);
        assert(mul_at(t, a, n, r, c) == identity_at(r, c));
    }
    assert forall|r: int, c: int| 0 <= r < n && 0 <= c < n implies #[trigger] mul_at(b, t, n, r, c)
        == identity_at(r, c) by {
        let p = |k: int| prod(a(r, k), t(k, c));
        let q = |k: int| prod(b(r, k), t(k, c));
        assert forall|k: int| 0 <= k < n implies #[trigger] p(k) == q(k) by {
            assert(a(r, k) == b(r, k));
        }
        lemma_sum_ext(p, q, n);
        assert(mul_at(a, t, n, r, c) == identity_at(r, c));
    }
}

/// The Vandermonde matrix over the points 1, 2, 3, ...
pub open spec fn vandermonde() -> Entries {
    |r: int, c: int| power((r + 1) as u8, c as nat)
}

/// `g` is `V * t`, where `V` is the Vandermonde matrix of `k + m` rows and `k`
/// columns and `t` is the inverse of its top `k` rows.
pub open spec fn systematic_via(g: Entries, t: Entries, k: nat, m: nat) -> bool {
    &&& inverse_pair(vandermonde(), t, k)
    &&& forall|r: int, c: int|
        0 <= r < k + m && 0 <= c < k ==> #[trigger] g(r, c) == mul_at(vandermonde(), t, k, r, c)
}

/// `g` is the systematic encoding matrix for `k` data and `m` parity shards.
pub open spec fn systematic(g: Entries, k: nat, m: nat) -> bool {
    exists|t: Entries| systematic_via(g, t, k, m)
}

/// Any `k` distinct rows of the Vandermonde matrix are nonsingular.
proof fn lemma_vandermonde_rows(rows: Seq<int>, k: nat)
    requires
        rows.len() == k,
        forall|i: int| 0 <= i < k ==> 0 <= #[trigger] rows[i] < 255,
        forall|i: int, j: int| 0 <= i < j < k ==> rows[i] != rows[j],
    ensures
        trivial_kernel(selected(vandermonde(), rows), k),
{
    let a = selected(vandermonde(), rows);
    assert forall|v: spec_fn(int) -> u8, j: int|
        #[trigger] in_kernel(a, v, k) && 0 <= j < k implies #[trigger] v(j) == 0 by {
        let points = Seq::new(k, |i: int| (rows[i] + 1) as u8);
        assert forall|i: int| 0 <= i < k implies poly(v, #[trigger] points[i], 0, k as int)
            == 0 by {
            lemma_poly_is_sum(v, points[i], k);
            assert(apply_at(a, v, k, i) == 0);
            lemma_sum_ext(
                |c: int| prod(a(i, c), v(c)),
                |c: int| prod(power(points[i], c as nat), v(c)),
                k,
            );
        }
        assert forall|i: int, l: int| 0 <= i < l < k implies points[i] != points[l] by {
            assert(rows[i] != rows[l]);
            assert(0 <= rows[i] < 255 && 0 <= rows[l] < 255);
        }
        lemma_poly_roots(v, points, k);
    }
}

/// Every `k`-row submatrix of a systematic encoding matrix is nonsingular.
pub proof fn lemma_every_submatrix_nonsingular(g: Entries, k: nat, m: nat, rows: Seq<int>)
    requires
        systematic(g, k, m),
        k + m <= 255,
        rows.len() == k,
        forall|i: int| 0 <= i < k ==> 0 <= #[trigger] rows[i] < k + m,
        forall|i: int, j: int| 0 <= i < j < k ==> rows[i] != rows[j],
    ensures
        trivial_kernel(selected(g, rows), k),
{
    let t = choose|t: Entries| systematic_via(g, t, k, m);
    let vand = vandermonde();
    let vs = selected(vand, rows);
    let gs = selected(g, rows);
    lemma_vandermonde_rows(rows, k);
    lemma_inverse_trivial_kernel(t, vand, k);
    assert forall|v: spec_fn(int) -> u8, j: int|
        #[trigger] in_kernel(gs, v, k) && 0 <= j < k implies #[trigger] v(j) == 0 by {
        let w = apply(t, v, k);
        assert forall|r: int| 0 <= r < k implies #[trigger] apply_at(vs, w, k, r) == 0 by {
            lemma_apply_associative(vs, t, v, k, k, r);
            let p = |c: int| prod(times(vs, t, k)(r, c), v(c));
            let q = |c: int| prod(gs(r, c), v(c));
            assert forall|c: int| 0 <= c < k implies #[trigger] p(c) == q(c) by {
                assert(g(rows[r], c) == mul_at(vand, t, k, rows[r], c));
                lemma_sum_ext(
                    |i: int| prod(vand(rows[r], i), t(i, c)),
                    |i: int| prod(vs(r, i), t(i, c)),
                    k,
                );
            }
            lemma_sum_ext(p, q, k);
            assert(apply_at(gs, v, k, r) == 0);
        }
        assert(in_kernel(vs, w, k));
        assert forall|r: int| 0 <= r < k implies #[trigger] apply_at(t, v, k, r) == 0 by {
            assert(w(r) == 0);
        }
        assert(in_kernel(t, v, k));
    }
}

/// The top `k` rows of a systematic encoding matrix are the identity: data
/// shards pass through.
pub proof fn lemma_systematic_top(g: Entries, k: nat, m: nat, r: int, c: int)
    requires
        systematic(g, k, m),
        0 <= r < k,
        0 <= c < k,
    ensures
        g(r, c) == identity_at(r, c),
{
    let t = choose|t: Entries| systematic_via(g, t, k, m);
    assert(g(r, c) == mul_at(vandermonde(), t, k, r, c));
}

/// There is at most one systematic encoding matrix for given `k` and `m`.
pub proof fn lemma_systematic_unique(g: Entries, h: Entries, k: nat, m: nat, r: int, c: int)
    requires
        systematic(g, k, m),
        systematic(h, k, m),
        0 <= r < k + m,
        0 <= c < k,
    ensures
        g(r, c) == h(r, c),
{
    let t = choose|t: Entries| systematic_via(g, t, k, m);
    let u = choose|t: Entries| systematic_via(h, t, k, m);
    let vand = vandermonde();
    let p = |i: int| prod(vand(r, i), t(i, c));
    let q = |i: int| prod(vand(r, i), u(i, c));
    assert forall|i: int| 0 <= i < k implies #[trigger] p(i) == q(i) by {
        lemma_inverse_is_unique(vand, t, u, k, i, c);
    }
    lemma_sum_ext(p, q, k);
    assert(g(r, c) == mul_at(vand, t, k, r, c));
    assert(h(r, c) == mul_at(vand, u, k, r, c));
}

/// A matrix has at most one inverse.
pub proof fn lemma_inverse_is_unique(a: Entries, t: Entries, u: Entries, n: nat, r: int, c: int)
    requires
        inverse_pair(a, t, n),
        inverse_pair(a, u, n),
        0 <= r < n,
        0 <= c < n,
    ensures
        t(r, c) == u(r, c),
{
    // t == t * (a * u) == (t * a) * u == u
    lemma_times_associative(t, a, u, n, n, r, c);
    let au = times(a, u, n);
    let ta = times(t, a, n);
    assert forall|k: int| 0 <= k < n implies #[trigger] au(k, 0 + c) == identity_at(k, c) by {
        assert(mul_at(a, u, n, k, c) == identity_at(k, c));
    }
    lemma_times_identity(t, au, n, r, c, 0);
    let col = |k: int| u(k, c);
    assert forall|k: int| 0 <= k < n implies #[trigger] ta(r, k) == identity_at(r, k) by {
        assert(mul_at(t, a, n, r, k) == identity_at(r, k));
    }
    lemma_apply_identity(ta, col, n, r);
    lemma_sum_ext(|k: int| prod(ta(r, k), u(k, c)), |k: int| prod(ta(r, k), col(k)), n);
}

/// `[a | identity]`, with `a` of `n` columns.
spec fn augmented_at(a: Entries, n: nat) -> Entries {
    |r: int, c: int|
        if c < n {
            a(r, c)
        } else {
            identity_at(r, c - n)
        }
}

/// Elimination that finds no pivot in column `col` shows a nonzero vector
/// that `a` takes to zero.
proof fn lemma_stuck_is_singular(a: Entries, x: Entries, e: Entries, f: Entries, n: nat, col: int)
    requires
        row_equivalent(augmented_at(a, n), x, e, f, n, 2 * n),
        0 <= col < n,
        forall|r: int, c: int| 0 <= r < n && 0 <= c < col ==> #[trigger] x(r, c) == identity_at(r, c),
        forall|r: int| col <= r < n ==> #[trigger] x(r, col) == 0,
    ensures
        !trivial_kernel(a, n),
{
    let b = augmented_at(a, n);
    let v = |j: int|
        if j < col {
            x(j, col)
        } else if j == col {
            1u8
        } else {
            0u8
        };
    assert forall|r: int| 0 <= r < n implies #[trigger] apply_at(x, v, n, r) == 0 by {
        let g = |k: int| prod(x(r, k), v(k));
        let zero = |k: int| 0u8;
        lemma_sum_zero(zero, n);
        lemma_mul_units(x(r, col));
        if r < col {
            let d = x(r, col);
            let one = |k: int|
                if k == r {
                    d
                } else {
                    0u8
                };
            lemma_add_laws(d, d, 0);
            crate::linalg::lemma_sum_update(zero, one, n, r, d);
            assert forall|k: int| 0 <= k < n && k != col implies #[trigger] g(k) == one(k) by {
                if k < col {
                    assert(x(r, k) == identity_at(r, k));
                }
                lemma_mul_units(v(k));
                lemma_mul_units(x(r, k));
            }
            lemma_add_laws(0, d, 0);
            crate::linalg::lemma_sum_update(one, g, n, col, d);
        } else {
            assert forall|k: int| 0 <= k < n implies #[trigger] g(k) == 0 by {
                if k < col {
                    assert(x(r, k) == identity_at(r, k));
                } else if k == col {
                    assert(x(r, col) == 0);
                }
                lemma_mul_units(v(k));
                lemma_mul_units(x(r, k));
            }
            lemma_sum_zero(g, n);
        }
    }
    assert(is_product(b, f, x, n, n));
    assert forall|r: int| 0 <= r < n implies #[trigger] apply_at(a, v, n, r) == 0 by {
        lemma_kernel_pulled_back(b, f, x, v, n, r);
        lemma_sum_ext(|k: int| prod(b(r, k), v(k)), |k: int| prod(a(r, k), v(k)), n);
    }
    assert(in_kernel(a, v, n) && v(col) == 1);
}

/// Once the left half is the identity, the right half is the inverse.
proof fn lemma_reduced_is_inverse(
    a: Entries,
    x: Entries,
    e: Entries,
    f: Entries,
    out: Entries,
    n: nat,
)
    requires
        row_equivalent(augmented_at(a, n), x, e, f, n, 2 * n),
        forall|r: int, c: int| 0 <= r < n && 0 <= c < n ==> #[trigger] x(r, c) == identity_at(r, c),
        forall|r: int, c: int| 0 <= r < n && 0 <= c < n ==> #[trigger] out(r, c) == x(r, n + c),
    ensures
        inverse_pair(a, out, n),
{
    let b = augmented_at(a, n);
    assert forall|r: int, c: int| 0 <= r < n && 0 <= c < n implies #[trigger] e(r, c) == out(r, c) by {
        assert(x(r, n + c) == mul_at(e, b, n, r, n + c));
        lemma_times_identity(e, b, n, r, c, n as int);
        assert(out(r, c) == x(r, n + c));
    }
    assert forall|r: int, c: int| 0 <= r < n && 0 <= c < n implies #[trigger] f(r, c) == a(r, c) by {
        assert(b(r, c) == mul_at(f, x, n, r, c));
        lemma_times_identity(f, x, n, r, c, 0);
    }
    assert forall|r: int, c: int| 0 <= r < n && 0 <= c < n implies #[trigger] mul_at(out, a, n, r, c)
        == identity_at(r, c) by {
        assert(x(r, c) == mul_at(e, b, n, r, c));
        let g = |k: int| prod(e(r, k), b(k, c));
        let h = |k: int| prod(out(r, k), a(k, c));
        assert forall|k: int| 0 <= k < n implies #[trigger] g(k) == h(k) by {
            assert(e(r, k) == out(r, k));
        }
        lemma_sum_ext(g, h, n);
    }
    assert forall|r: int, c: int| 0 <= r < n && 0 <= c < n implies #[trigger] mul_at(a, out, n, r, c)
        == identity_at(r, c) by {
        assert(b(r, n + c) == mul_at(f, x, n, r, n + c));
        let g = |k: int| prod(f(r, k), x(k, n + c));
        let h = |k: int| prod(a(r, k), out(k, c));
        assert forall|k: int| 0 <= k < n implies #[trigger] g(k) == h(k) by {
            assert(f(r, k) == a(r, k));
            assert(out(k, c) == x(k, n + c));
        }
        lemma_sum_ext(g, h, n);
    }
}

/// A product with a matrix whose columns from `shift` on are those of the
/// identity.
proof fn lemma_times_identity(e: Entries, b: Entries, n: nat, r: int, c: int, shift: int)
    requires
        0 <= c < n,
        forall|k: int| 0 <= k < n ==> #[trigger] b(k, shift + c) == identity_at(k, c),
    ensures
        mul_at(e, b, n, r, shift + c) == e(r, c),
{
    let g = |k: int| prod(e(r, k), b(k, shift + c));
    assert forall|k: int| 0 <= k < n && k != c implies #[trigger] g(k) == 0 by {
        assert(b(k, shift + c) == identity_at(k, c));
        lemma_mul_units(e(r, k));
    }
    crate::linalg::lemma_sum_single(g, n, c);
    assert(b(c, shift + c) == identity_at(c, c));
    lemma_mul_units(e(r, c));
}

/// A matrix with an inverse takes no nonzero vector to zero.
proof fn lemma_inverse_trivial_kernel(a: Entries, inv: Entries, n: nat)
    requires
        inverse_pair(a, inv, n),
    ensures
        trivial_kernel(a, n),
{
    assert forall|v: spec_fn(int) -> u8, j: int|
        #[trigger] in_kernel(a, v, n) && 0 <= j < n implies #[trigger] v(j) == 0 by {
        lemma_apply_associative(inv, a, v, n, n, j);
        let t = times(inv, a, n);
        assert forall|c: int| 0 <= c < n implies #[trigger] t(j, c) == identity_at(j, c) by {
            assert(mul_at(inv, a, n, j, c) == identity_at(j, c));
        }
        lemma_apply_identity(t, v, n, j);
        let z = |k: int| prod(inv(j, k), apply(a, v, n)(k));
        assert forall|k: int| 0 <= k < n implies #[trigger] z(k) == 0 by {
            assert(apply_at(a, v, n, k) == 0);
            lemma_mul_units(inv(j, k));
        }
        lemma_sum_zero(z, n);
    }
}

} // verus!
