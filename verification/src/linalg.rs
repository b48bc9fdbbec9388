//! Linear algebra over GF(2^8), as mathematics: finite sums, products of
//! matrices given by their entries, row operations, and the roots of
//! polynomials.

use vstd::prelude::*;

use crate::gf::{
    inverse, lemma_add_laws, lemma_mul_associative, lemma_mul_commutative, lemma_mul_distributive,
    lemma_mul_inverse, lemma_mul_units, lemma_no_zero_divisors, prod,
};

verus! {

/// A matrix as its entries: row and column to element.
pub type Entries = spec_fn(int, int) -> u8;

/// `f(0) + f(1) + ... + f(n - 1)`.
pub open spec fn sum(f: spec_fn(int) -> u8, n: nat) -> u8
    decreases n,
{
    if n == 0 {
        0
    } else {
        sum(f, (n - 1) as nat) ^ f(n - 1)
    }
}

pub proof fn lemma_sum_ext(f: spec_fn(int) -> u8, g: spec_fn(int) -> u8, n: nat)
    requires
        forall|i: int| 0 <= i < n ==> #[trigger] f(i) == g(i),
    ensures
        sum(f, n) == sum(g, n),
    decreases n,
{
    if n > 0 {
        lemma_sum_ext(f, g, (n - 1) as nat);
        assert(f(n - 1) == g(n - 1));
    }
}

proof fn lemma_xor_exchange(a: u8, b: u8, c: u8, d: u8)
    by (bit_vector)
    ensures
        (a ^ b) ^ (c ^ d) == (a ^ c) ^ (b ^ d),
        (a ^ b) ^ c == (a ^ c) ^ b,
        a ^ (b ^ b) == a,
        (a ^ b) ^ b == a,
{
}

/// The sum of sums is the sum of the terms' sums.
pub proof fn lemma_sum_add(
    f: spec_fn(int) -> u8,
    g: spec_fn(int) -> u8,
    h: spec_fn(int) -> u8,
    n: nat,
)
    requires
        forall|i: int| 0 <= i < n ==> #[trigger] h(i) == f(i) ^ g(i),
    ensures
        sum(h, n) == sum(f, n) ^ sum(g, n),
    decreases n,
{
    if n == 0 {
        lemma_add_laws(0, 0, 0);
    } else {
        let m = (n - 1) as nat;
        lemma_sum_add(f, g, h, m);
        assert(h(n - 1) == f(n - 1) ^ g(n - 1));
        lemma_xor_exchange(sum(f, m), sum(g, m), f(n - 1), g(n - 1));
    }
}

/// A common factor comes out of a sum.
pub proof fn lemma_sum_scale(c: u8, f: spec_fn(int) -> u8, g: spec_fn(int) -> u8, n: nat)
    requires
        forall|i: int| 0 <= i < n ==> #[trigger] g(i) == prod(c, f(i)),
    ensures
        sum(g, n) == prod(c, sum(f, n)),
    decreases n,
{
    if n == 0 {
        lemma_mul_units(c);
    } else {
        let m = (n - 1) as nat;
        lemma_sum_scale(c, f, g, m);
        assert(g(n - 1) == prod(c, f(n - 1)));
        lemma_mul_distributive(c, sum(f, m), f(n - 1));
    }
}

pub proof fn lemma_sum_zero(f: spec_fn(int) -> u8, n: nat)
    requires
        forall|i: int| 0 <= i < n ==> #[trigger] f(i) == 0,
    ensures
        sum(f, n) == 0,
    decreases n,
{
    if n > 0 {
        lemma_sum_zero(f, (n - 1) as nat);
        assert(f(n - 1) == 0);
        lemma_add_laws(0, 0, 0);
    }
}

/// Changing one term by `d` changes the sum by `d`.
pub proof fn lemma_sum_update(
    f: spec_fn(int) -> u8,
    g: spec_fn(int) -> u8,
    n: nat,
    j: int,
    d: u8,
)
    requires
        0 <= j < n,
        g(j) == f(j) ^ d,
        forall|i: int| 0 <= i < n && i != j ==> #[trigger] g(i) == f(i),
    ensures
        sum(g, n) == sum(f, n) ^ d,
    decreases n,
{
    let m = (n - 1) as nat;
    if j == n - 1 {
        lemma_sum_ext(g, f, m);
        lemma_add_laws(sum(f, m), f(j), d);
    } else {
        lemma_sum_update(f, g, m, j, d);
        assert(g(n - 1) == f(n - 1));
        lemma_xor_exchange(sum(f, m), d, f(n - 1), 0);
    }
}

/// A sum with one possibly nonzero term is that term.
pub proof fn lemma_sum_single(f: spec_fn(int) -> u8, n: nat, j: int)
    requires
        0 <= j < n,
        forall|i: int| 0 <= i < n && i != j ==> #[trigger] f(i) == 0,
    ensures
        sum(f, n) == f(j),
{
    let zero = |i: int| 0u8;
    lemma_sum_zero(zero, n);
    lemma_add_laws(f(j), 0, 0);
    lemma_sum_update(zero, f, n, j, f(j));
}

/// A double sum may be taken in either order.
pub proof fn lemma_sum_swap(f: spec_fn(int, int) -> u8, m: nat, n: nat)
    ensures
        sum(|i: int| sum(|j: int| f(i, j), n), m) == sum(|j: int| sum(|i: int| f(i, j), m), n),
    decreases m,
{
    if m == 0 {
        lemma_sum_zero(|j: int| sum(|i: int| f(i, j), 0), n);
    } else {
        let p = (m - 1) as nat;
        lemma_sum_swap(f, p, n);
        lemma_sum_add(
            |j: int| sum(|i: int| f(i, j), p),
            |j: int| f(m - 1, j),
            |j: int| sum(|i: int| f(i, j), m),
            n,
        );
    }
}

/// Entry `(r, c)` of the product of `a` (with `n` columns) and `b` (with `n`
/// rows).
pub open spec fn mul_at(a: Entries, b: Entries, n: nat, r: int, c: int) -> u8 {
    sum(|k: int| prod(a(r, k), b(k, c)), n)
}

/// Entry `r` of the product of `a` (with `n` columns) and the vector `v`.
pub open spec fn apply_at(a: Entries, v: spec_fn(int) -> u8, n: nat, r: int) -> u8 {
    sum(|k: int| prod(a(r, k), v(k)), n)
}

pub open spec fn identity_at(r: int, c: int) -> u8 {
    if r == c {
        1
    } else {
        0
    }
}

/// The vector `a * v`.
pub open spec fn apply(a: Entries, v: spec_fn(int) -> u8, n: nat) -> spec_fn(int) -> u8 {
    |r: int| apply_at(a, v, n, r)
}

/// The matrix `a * b`.
pub open spec fn times(a: Entries, b: Entries, n: nat) -> Entries {
    |r: int, c: int| mul_at(a, b, n, r, c)
}

/// `(a * b) * v == a * (b * v)`, with `b` of `m` rows and `n` columns.
pub proof fn lemma_apply_associative(
    a: Entries,
    b: Entries,
    v: spec_fn(int) -> u8,
    m: nat,
    n: nat,
    r: int,
)
    ensures
        apply_at(times(a, b, m), v, n, r) == apply_at(a, apply(b, v, n), m, r),
{
    let f = |k: int, j: int| prod(prod(a(r, k), b(k, j)), v(j));
    lemma_sum_swap(f, m, n);
    let lhs = |j: int| prod(times(a, b, m)(r, j), v(j));
    let inner = |j: int| sum(|k: int| f(k, j), m);
    assert forall|j: int| 0 <= j < n implies #[trigger] lhs(j) == inner(j) by {
        let row = |k: int| prod(a(r, k), b(k, j));
        let scaled = |k: int| f(k, j);
        assert forall|k: int| 0 <= k < m implies #[trigger] scaled(k) == prod(v(j), row(k)) by {
            lemma_mul_commutative(v(j), row(k));
        }
        lemma_sum_scale(v(j), row, scaled, m);
        lemma_mul_commutative(v(j), sum(row, m));
        assert(times(a, b, m)(r, j) == sum(row, m));
        assert(inner(j) == sum(scaled, m));
    }
    lemma_sum_ext(lhs, inner, n);
    let rhs = |k: int| prod(a(r, k), apply(b, v, n)(k));
    let outer = |k: int| sum(|j: int| f(k, j), n);
    assert forall|k: int| 0 <= k < m implies #[trigger] rhs(k) == outer(k) by {
        let col = |j: int| prod(b(k, j), v(j));
        let scaled = |j: int| f(k, j);
        assert forall|j: int| 0 <= j < n implies #[trigger] scaled(j) == prod(a(r, k), col(j)) by {
            lemma_mul_associative(a(r, k), b(k, j), v(j));
        }
        lemma_sum_scale(a(r, k), col, scaled, n);
        assert(apply(b, v, n)(k) == sum(col, n));
        assert(outer(k) == sum(scaled, n));
    }
    lemma_sum_ext(rhs, outer, m);
}

/// `(a * b) * c == a * (b * c)`, with `b` of `m` rows and `n` columns.
pub proof fn lemma_times_associative(a: Entries, b: Entries, c: Entries, m: nat, n: nat, r: int, j: int)
    ensures
        mul_at(times(a, b, m), c, n, r, j) == mul_at(a, times(b, c, n), m, r, j),
{
    let v = |k: int| c(k, j);
    lemma_apply_associative(a, b, v, m, n, r);
    lemma_sum_ext(
        |k: int| prod(times(a, b, m)(r, k), c(k, j)),
        |k: int| prod(times(a, b, m)(r, k), v(k)),
        n,
    );
    let f = |k: int| prod(a(r, k), times(b, c, n)(k, j));
    let g = |k: int| prod(a(r, k), apply(b, v, n)(k));
    assert forall|k: int| 0 <= k < m implies #[trigger] f(k) == g(k) by {
        lemma_sum_ext(|i: int| prod(b(k, i), c(i, j)), |i: int| prod(b(k, i), v(i)), n);
    }
    lemma_sum_ext(f, g, m);
}

/// Multiplying by the identity changes nothing.
pub proof fn lemma_apply_identity(a: Entries, v: spec_fn(int) -> u8, n: nat, r: int)
    requires
        0 <= r < n,
        forall|c: int| 0 <= c < n ==> #[trigger] a(r, c) == identity_at(r, c),
    ensures
        apply_at(a, v, n, r) == v(r),
{
    let f = |k: int| prod(a(r, k), v(k));
    assert forall|k: int| 0 <= k < n && k != r implies #[trigger] f(k) == 0 by {
        assert(a(r, k) == identity_at(r, k));
        lemma_mul_units(v(k));
    }
    lemma_sum_single(f, n, r);
    assert(a(r, r) == identity_at(r, r));
    lemma_mul_units(v(r));
}

/// `y == f * x`, for matrices `x` and `y` of `n` rows and `w` columns.
pub open spec fn is_product(y: Entries, f: Entries, x: Entries, n: nat, w: nat) -> bool {
    forall|r: int, c: int| 0 <= r < n && 0 <= c < w ==> #[trigger] y(r, c) == mul_at(f, x, n, r, c)
}

/// `x` is reached from `b` by row operations that can be undone: `x == e * b`
/// and `b == f * x`.
pub open spec fn row_equivalent(b: Entries, x: Entries, e: Entries, f: Entries, n: nat, w: nat) -> bool {
    &&& is_product(x, e, b, n, w)
    &&& is_product(b, f, x, n, w)
}

/// `a` with row `p` multiplied by `s`.
pub open spec fn row_scaled(a: Entries, p: int, s: u8) -> Entries {
    |r: int, c: int|
        if r == p {
            prod(s, a(r, c))
        } else {
            a(r, c)
        }
}

/// `a` with `s` times row `q` added to row `p`.
pub open spec fn row_added(a: Entries, p: int, q: int, s: u8) -> Entries {
    |r: int, c: int|
        if r == p {
            a(r, c) ^ prod(s, a(q, c))
        } else {
            a(r, c)
        }
}

/// `a` with column `p` multiplied by `s`.
spec fn col_scaled(a: Entries, p: int, s: u8) -> Entries {
    |r: int, c: int|
        if c == p {
            prod(s, a(r, c))
        } else {
            a(r, c)
        }
}

/// `a` with `s` times column `p` added to column `q`.
spec fn col_added(a: Entries, p: int, q: int, s: u8) -> Entries {
    |r: int, c: int|
        if c == q {
            a(r, c) ^ prod(s, a(r, p))
        } else {
            a(r, c)
        }
}

/// Equality of the first `n` rows and `w` columns.
pub open spec fn same_entries(a: Entries, b: Entries, n: nat, w: nat) -> bool {
    forall|r: int, c: int| 0 <= r < n && 0 <= c < w ==> #[trigger] a(r, c) == b(r, c)
}

pub proof fn lemma_row_equivalent_identity(b: Entries, n: nat, w: nat)
    ensures
        row_equivalent(b, b, |r: int, c: int| identity_at(r, c), |r: int, c: int| identity_at(r, c), n, w),
{
    let id = |r: int, c: int| identity_at(r, c);
    assert forall|r: int, c: int| 0 <= r < n && 0 <= c < w implies #[trigger] b(r, c) == mul_at(
        id,
        b,
        n,
        r,
        c,
    ) by {
        let v = |k: int| b(k, c);
        lemma_apply_identity(id, v, n, r);
        lemma_sum_ext(|k: int| prod(id(r, k), b(k, c)), |k: int| prod(id(r, k), v(k)), n);
    }
}

pub proof fn lemma_row_equivalent_ext(
    b: Entries,
    x: Entries,
    y: Entries,
    e: Entries,
    f: Entries,
    n: nat,
    w: nat,
)
    requires
        row_equivalent(b, x, e, f, n, w),
        same_entries(y, x, n, w),
    ensures
        row_equivalent(b, y, e, f, n, w),
{
    assert forall|r: int, c: int| 0 <= r < n && 0 <= c < w implies #[trigger] y(r, c) == mul_at(
        e,
        b,
        n,
        r,
        c,
    ) by {
        assert(x(r, c) == mul_at(e, b, n, r, c));
    }
    assert forall|r: int, c: int| 0 <= r < n && 0 <= c < w implies #[trigger] b(r, c) == mul_at(
        f,
        y,
        n,
        r,
        c,
    ) by {
        let p = |k: int| prod(f(r, k), x(k, c));
        let q = |k: int| prod(f(r, k), y(k, c));
        assert forall|k: int| 0 <= k < n implies #[trigger] p(k) == q(k) by {
            assert(y(k, c) == x(k, c));
        }
        lemma_sum_ext(p, q, n);
    }
}

/// Scaling a row by a nonzero element keeps row equivalence.
pub proof fn lemma_row_scaled(
    b: Entries,
    x: Entries,
    e: Entries,
    f: Entries,
    n: nat,
    w: nat,
    p: int,
    s: u8,
) -> (ef: (Entries, Entries))
    requires
        row_equivalent(b, x, e, f, n, w),
        0 <= p < n,
        s != 0,
    ensures
        row_equivalent(b, row_scaled(x, p, s), ef.0, ef.1, n, w),
{
    let y = row_scaled(x, p, s);
    let e1 = row_scaled(e, p, s);
    let t = inverse(s);
    let f1 = col_scaled(f, p, t);
    assert forall|r: int, c: int| 0 <= r < n && 0 <= c < w implies #[trigger] y(r, c) == mul_at(
        e1,
        b,
        n,
        r,
        c,
    ) by {
        assert(x(r, c) == mul_at(e, b, n, r, c));
        let g = |k: int| prod(e(r, k), b(k, c));
        let h = |k: int| prod(e1(r, k), b(k, c));
        if r == p {
            assert forall|k: int| 0 <= k < n implies #[trigger] h(k) == prod(s, g(k)) by {
                lemma_mul_associative(s, e(r, k), b(k, c));
            }
            lemma_sum_scale(s, g, h, n);
        } else {
            lemma_sum_ext(g, h, n);
        }
    }
    lemma_mul_inverse(s);
    assert forall|r: int, c: int| 0 <= r < n && 0 <= c < w implies #[trigger] b(r, c) == mul_at(
        f1,
        y,
        n,
        r,
        c,
    ) by {
        let g = |k: int| prod(f(r, k), x(k, c));
        let h = |k: int| prod(f1(r, k), y(k, c));
        assert forall|k: int| 0 <= k < n implies #[trigger] h(k) == g(k) by {
            if k == p {
                let u = f(r, k);
                let v = x(k, c);
                lemma_mul_commutative(t, u);
                lemma_mul_associative(u, t, prod(s, v));
                lemma_mul_associative(t, s, v);
                lemma_mul_commutative(t, s);
                lemma_mul_units(v);
            }
        }
        lemma_sum_ext(h, g, n);
    }
    (e1, f1)
}

/// Adding a multiple of a row to another row keeps row equivalence.
pub proof fn lemma_row_added(
    b: Entries,
    x: Entries,
    e: Entries,
    f: Entries,
    n: nat,
    w: nat,
    p: int,
    q: int,
    s: u8,
) -> (ef: (Entries, Entries))
    requires
        row_equivalent(b, x, e, f, n, w),
        0 <= p < n,
        0 <= q < n,
        p != q,
    ensures
        row_equivalent(b, row_added(x, p, q, s), ef.0, ef.1, n, w),
{
    let y = row_added(x, p, q, s);
    let e1 = row_added(e, p, q, s);
    let f1 = col_added(f, p, q, s);
    assert forall|r: int, c: int| 0 <= r < n && 0 <= c < w implies #[trigger] y(r, c) == mul_at(
        e1,
        b,
        n,
        r,
        c,
    ) by {
        assert(x(r, c) == mul_at(e, b, n, r, c));
        assert(x(q, c) == mul_at(e, b, n, q, c));
        let g = |k: int| prod(e(r, k), b(k, c));
        let h = |k: int| prod(e1(r, k), b(k, c));
        if r == p {
            let gq = |k: int| prod(e(q, k), b(k, c));
            let sq = |k: int| prod(s, gq(k));
            lemma_sum_scale(s, gq, sq, n);
            assert forall|k: int| 0 <= k < n implies #[trigger] h(k) == g(k) ^ sq(k) by {
                lemma_mul_associative(s, e(q, k), b(k, c));
                lemma_mul_commutative(e1(r, k), b(k, c));
                lemma_mul_distributive(b(k, c), e(r, k), prod(s, e(q, k)));
                lemma_mul_commutative(e(r, k), b(k, c));
                lemma_mul_commutative(prod(s, e(q, k)), b(k, c));
            }
            lemma_sum_add(g, sq, h, n);
        } else {
            lemma_sum_ext(g, h, n);
        }
    }
    assert forall|r: int, c: int| 0 <= r < n && 0 <= c < w implies #[trigger] b(r, c) == mul_at(
        f1,
        y,
        n,
        r,
        c,
    ) by {
        let g = |k: int| prod(f(r, k), x(k, c));
        let h = |k: int| prod(f1(r, k), y(k, c));
        let u = f(r, p);
        let d = prod(u, prod(s, x(q, c)));
        // Only the terms of rows `p` and `q` differ, both by `d`.
        let mid = |k: int|
            if k == p {
                g(k) ^ d
            } else {
                g(k)
            };
        lemma_sum_update(g, mid, n, p, d);
        assert(h(q) == mid(q) ^ d) by {
            let v = x(q, c);
            lemma_mul_commutative(f1(r, q), v);
            lemma_mul_distributive(v, f(r, q), prod(s, u));
            lemma_mul_commutative(v, f(r, q));
            lemma_mul_commutative(v, prod(s, u));
            lemma_mul_commutative(s, u);
            lemma_mul_associative(u, s, v);
        }
        assert(h(p) == mid(p)) by {
            lemma_mul_distributive(u, x(p, c), prod(s, x(q, c)));
        }
        lemma_sum_update(mid, h, n, q, d);
        lemma_xor_exchange(sum(g, n), d, 0, 0);
    }
    (e1, f1)
}

/// Exchanging two rows keeps row equivalence.
pub proof fn lemma_rows_swapped(
    b: Entries,
    x: Entries,
    e: Entries,
    f: Entries,
    n: nat,
    w: nat,
    p: int,
    q: int,
    y: Entries,
) -> (ef: (Entries, Entries))
    requires
        row_equivalent(b, x, e, f, n, w),
        0 <= p < n,
        0 <= q < n,
        p != q,
        forall|r: int, c: int|
            0 <= r < n && 0 <= c < w ==> #[trigger] y(r, c) == (if r == p {
                x(q, c)
            } else if r == q {
                x(p, c)
            } else {
                x(r, c)
            }),
    ensures
        row_equivalent(b, y, ef.0, ef.1, n, w),
{
    let x1 = row_added(x, p, q, 1);
    let (e1, f1) = lemma_row_added(b, x, e, f, n, w, p, q, 1);
    let x2 = row_added(x1, q, p, 1);
    let (e2, f2) = lemma_row_added(b, x1, e1, f1, n, w, q, p, 1);
    let x3 = row_added(x2, p, q, 1);
    let (e3, f3) = lemma_row_added(b, x2, e2, f2, n, w, p, q, 1);
    assert forall|r: int, c: int| 0 <= r < n && 0 <= c < w implies #[trigger] y(r, c) == x3(r, c) by {
        let u = x(p, c);
        let v = x(q, c);
        lemma_mul_units(v);
        lemma_mul_units(u ^ v);
        lemma_mul_units(u);
        lemma_three_adds(u, v);
    }
    lemma_row_equivalent_ext(b, x3, y, e3, f3, n, w);
    (e3, f3)
}

proof fn lemma_three_adds(u: u8, v: u8)
    by (bit_vector)
    ensures
        v ^ (u ^ v) == u,
        (u ^ v) ^ u == v,
{
}

/// A vector that `x` takes to zero, `b` takes to zero too, where `b == f * x`.
pub proof fn lemma_kernel_pulled_back(b: Entries, f: Entries, x: Entries, v: spec_fn(int) -> u8, n: nat, r: int)
    requires
        is_product(b, f, x, n, n),
        in_kernel(x, v, n),
        0 <= r < n,
    ensures
        apply_at(b, v, n, r) == 0,
{
    lemma_apply_associative(f, x, v, n, n, r);
    let g = |k: int| prod(b(r, k), v(k));
    let h = |k: int| prod(times(f, x, n)(r, k), v(k));
    assert forall|k: int| 0 <= k < n implies #[trigger] g(k) == h(k) by {
        assert(b(r, k) == mul_at(f, x, n, r, k));
    }
    lemma_sum_ext(g, h, n);
    let z = |k: int| prod(f(r, k), apply(x, v, n)(k));
    assert forall|k: int| 0 <= k < n implies #[trigger] z(k) == 0 by {
        assert(apply_at(x, v, n, k) == 0);
        lemma_mul_units(f(r, k));
    }
    lemma_sum_zero(z, n);
}

/// The first `n` rows of `a` take the vector `v` of length `n` to zero.
pub open spec fn in_kernel(a: Entries, v: spec_fn(int) -> u8, n: nat) -> bool {
    forall|r: int| 0 <= r < n ==> #[trigger] apply_at(a, v, n, r) == 0
}

/// No nonzero vector of length `n` is taken to zero by the first `n` rows of
/// `a`.
pub open spec fn trivial_kernel(a: Entries, n: nat) -> bool {
    forall|v: spec_fn(int) -> u8, j: int|
        #[trigger] in_kernel(a, v, n) && 0 <= j < n ==> #[trigger] v(j) == 0
}

/// `inv` is the inverse of `a`, both of `n` rows and columns.
pub open spec fn inverse_pair(a: Entries, inv: Entries, n: nat) -> bool {
    &&& forall|r: int, c: int|
        0 <= r < n && 0 <= c < n ==> #[trigger] mul_at(inv, a, n, r, c) == identity_at(r, c)
    &&& forall|r: int, c: int|
        0 <= r < n && 0 <= c < n ==> #[trigger] mul_at(a, inv, n, r, c) == identity_at(r, c)
}

/// The rows of `a` that `rows` lists.
pub open spec fn selected(a: Entries, rows: Seq<int>) -> Entries {
    |r: int, c: int| a(rows[r], c)
}

/// `x` to the power `i`.
pub open spec fn power(x: u8, i: nat) -> u8
    decreases i,
{
    if i == 0 {
        1
    } else {
        prod(power(x, (i - 1) as nat), x)
    }
}

/// The polynomial `p(lo) + p(lo + 1) x + ... + p(hi - 1) x^(hi - 1 - lo)`.
pub open spec fn poly(p: spec_fn(int) -> u8, x: u8, lo: int, hi: int) -> u8
    decreases hi - lo,
{
    if lo >= hi {
        0
    } else {
        p(lo) ^ prod(x, poly(p, x, lo + 1, hi))
    }
}

proof fn lemma_poly_extend(p: spec_fn(int) -> u8, x: u8, lo: int, hi: int)
    requires
        lo <= hi,
    ensures
        poly(p, x, lo, hi + 1) == poly(p, x, lo, hi) ^ prod(power(x, (hi - lo) as nat), p(hi)),
    decreases hi - lo,
{
    if lo == hi {
        assert(poly(p, x, lo + 1, hi + 1) == 0);
        lemma_mul_units(x);
        lemma_mul_units(p(hi));
        lemma_add_laws(p(hi), 0, 0);
    } else {
        lemma_poly_extend(p, x, lo + 1, hi);
        let rest = poly(p, x, lo + 1, hi);
        let i = (hi - lo - 1) as nat;
        let top = prod(power(x, i), p(hi));
        lemma_mul_distributive(x, rest, top);
        lemma_mul_associative(x, power(x, i), p(hi));
        lemma_mul_commutative(x, power(x, i));
        lemma_add_laws(p(lo), prod(x, rest), prod(x, top));
    }
}

/// The polynomial as the sum of its terms.
pub proof fn lemma_poly_is_sum(p: spec_fn(int) -> u8, x: u8, n: nat)
    ensures
        poly(p, x, 0, n as int) == sum(|i: int| prod(power(x, i as nat), p(i)), n),
    decreases n,
{
    if n > 0 {
        lemma_poly_is_sum(p, x, (n - 1) as nat);
        lemma_poly_extend(p, x, 0, n - 1);
    }
}

/// Dividing by `x + r` leaves `p(r)`: the quotient's coefficients are the
/// partial evaluations of `p` at `r`.
proof fn lemma_poly_divide(p: spec_fn(int) -> u8, r: u8, x: u8, lo: int, hi: int)
    ensures
        poly(p, x, lo, hi) ^ poly(p, r, lo, hi) == prod(
            x ^ r,
            poly(|i: int| poly(p, r, i + 1, hi), x, lo, hi),
        ),
    decreases hi - lo,
{
    let q = |i: int| poly(p, r, i + 1, hi);
    if lo >= hi {
        lemma_mul_units(x ^ r);
        lemma_add_laws(0, 0, 0);
    } else {
        lemma_poly_divide(p, r, x, lo + 1, hi);
        let a = poly(p, x, lo + 1, hi);
        let b = poly(p, r, lo + 1, hi);
        let c = poly(q, x, lo + 1, hi);
        assert(a ^ b == prod(x ^ r, c));
        assert(q(lo) == b);
        // p(lo) cancels.
        lemma_cancel(p(lo), prod(x, a), prod(r, b));
        // x a + r b == x (a + b) + (x + r) b
        lemma_mul_distributive(x, a, b);
        lemma_mul_commutative(x ^ r, b);
        lemma_mul_distributive(b, x, r);
        lemma_mul_commutative(b, x);
        lemma_mul_commutative(b, r);
        lemma_regroup(prod(x, a), prod(x, b), prod(r, b));
        // == (x + r) (x c + b)
        lemma_mul_associative(x, x ^ r, c);
        lemma_mul_commutative(x, x ^ r);
        lemma_mul_associative(x ^ r, x, c);
        lemma_mul_distributive(x ^ r, b, prod(x, c));
        lemma_add_laws(prod(x ^ r, b), prod(x ^ r, prod(x, c)), 0);
    }
}

proof fn lemma_cancel(p: u8, a: u8, b: u8)
    by (bit_vector)
    ensures
        (p ^ a) ^ (p ^ b) == a ^ b,
{
}

proof fn lemma_regroup(xa: u8, xb: u8, rb: u8)
    by (bit_vector)
    ensures
        (xa ^ xb) ^ (xb ^ rb) == xa ^ rb,
{
}

/// A polynomial of degree below `n` with `n` distinct roots is zero.
pub proof fn lemma_poly_roots(p: spec_fn(int) -> u8, roots: Seq<u8>, n: nat)
    requires
        roots.len() == n,
        forall|i: int, j: int| 0 <= i < j < n ==> roots[i] != roots[j],
        forall|i: int| 0 <= i < n ==> poly(p, #[trigger] roots[i], 0, n as int) == 0,
    ensures
        forall|c: int| 0 <= c < n ==> #[trigger] p(c) == 0,
    decreases n,
{
    if n > 0 {
        let m = (n - 1) as nat;
        let hi = n as int;
        let r = roots[n - 1];
        let q = |i: int| poly(p, r, i + 1, hi);
        let others = roots.take(n - 1);
        assert forall|i: int| 0 <= i < m implies poly(q, #[trigger] others[i], 0, m as int) == 0 by {
            let x = roots[i];
            assert(x != r);
            lemma_poly_divide(p, r, x, 0, hi);
            lemma_add_laws(x, r, 0);
            assert(poly(p, x, 0, hi) == 0 && poly(p, r, 0, hi) == 0);
            lemma_xor_nonzero(x, r);
            lemma_no_zero_divisors(x ^ r, poly(q, x, 0, hi));
            lemma_poly_extend(q, x, 0, m as int);
            assert(q(m as int) == 0);
            lemma_mul_units(power(x, m));
            lemma_add_laws(poly(q, x, 0, m as int), 0, 0);
        }
        lemma_poly_roots(q, others, m);
        assert forall|c: int| 0 <= c < n implies #[trigger] p(c) == 0 by {
            assert(poly(p, r, c, hi) == 0) by {
                if c > 0 {
                    assert(q(c - 1) == 0);
                }
            }
            assert(poly(p, r, c + 1, hi) == 0) by {
                if c < n - 1 {
                    assert(q(c) == 0);
                }
            }
            lemma_mul_units(r);
            lemma_add_laws(p(c), 0, 0);
        }
    }
}

proof fn lemma_xor_nonzero(x: u8, r: u8)
    by (bit_vector)
    requires
        x != r,
    ensures
        x ^ r != 0,
        0u8 ^ 0u8 == 0u8,
{
}

} // verus!
