//! GF(2^8) arithmetic with primitive polynomial `0x11D`.
//!
//! A byte is a polynomial over GF(2), bit `i` being the coefficient of `x^i`.
//! Addition is XOR; multiplication is polynomial multiplication modulo
//! `x^8 + x^4 + x^3 + x^2 + 1`. The polynomial is primitive: the powers of
//! `x` run through every nonzero element, which is what the `exp`/`log`
//! tables of [`GfTables`] rest on.

use vstd::prelude::*;

verus! {

/// Multiplication by `x`, reduced by the field polynomial.
pub open spec fn xtime(a: u8) -> u8 {
    (a << 1) ^ (if a & 0x80 != 0 {
        0x1Du8
    } else {
        0u8
    })
}

/// The field product: the sum of `a * x^i` over the set bits `i` of `b`.
pub open spec fn prod(a: u8, b: u8) -> u8
    decreases b,
{
    if b == 0 {
        0
    } else {
        proof {
            assert(b != 0 ==> (b >> 1) < b) by (bit_vector);
        }
        (if b & 1 != 0 {
            a
        } else {
            0
        }) ^ prod(xtime(a), b >> 1)
    }
}

/// The `i`-th power of the generator `x`.
pub open spec fn gen_pow(i: nat) -> u8
    decreases i,
{
    if i == 0 {
        1
    } else {
        xtime(gen_pow((i - 1) as nat))
    }
}

/// The elementary facts of XOR on bytes.
pub proof fn lemma_add_laws(a: u8, b: u8, c: u8)
    by (bit_vector)
    ensures
        a ^ b == b ^ a,
        (a ^ b) ^ c == a ^ (b ^ c),
        a ^ 0 == a,
        0 ^ a == a,
        a ^ a == 0,
        a ^ b == 0 ==> a == b,
{
}

proof fn lemma_xor_exchange(a: u8, b: u8, c: u8, d: u8)
    by (bit_vector)
    ensures
        (a ^ b) ^ (c ^ d) == (a ^ c) ^ (b ^ d),
{
}

/// `xtime` is linear and injective, and shifts a byte below 128.
proof fn lemma_xtime(a: u8, b: u8)
    by (bit_vector)
    ensures
        xtime(a ^ b) == xtime(a) ^ xtime(b),
        xtime(a) == xtime(b) ==> a == b,
        xtime(0) == 0,
        xtime(a >> 1) ^ (a & 1) == a,
{
}

proof fn lemma_bits(a: u8, b: u8)
    by (bit_vector)
    ensures
        (a ^ b) >> 1 == (a >> 1) ^ (b >> 1),
        ((a ^ b) & 1 != 0) == ((a & 1 != 0) != (b & 1 != 0)),
        a != 0 ==> (a >> 1) < a,
        a & 1 == 0 || a & 1 == 1,
{
}

proof fn lemma_prod_step(a: u8, b: u8)
    ensures
        prod(a, b) == (if b & 1 != 0 {
            a
        } else {
            0
        }) ^ prod(xtime(a), b >> 1),
{
    if b == 0 {
        assert(0u8 & 1 == 0 && 0u8 >> 1 == 0 && 0u8 ^ 0u8 == 0) by (bit_vector);
        assert(prod(xtime(a), 0) == 0);
    }
}

proof fn lemma_prod_linear_left(a: u8, b: u8, c: u8)
    ensures
        prod(a ^ b, c) == prod(a, c) ^ prod(b, c),
    decreases c,
{
    if c == 0 {
        lemma_add_laws(0, 0, 0);
    } else {
        lemma_bits(c, 0);
        lemma_xtime(a, b);
        lemma_prod_linear_left(xtime(a), xtime(b), c >> 1);
        let p = prod(xtime(a), c >> 1);
        let q = prod(xtime(b), c >> 1);
        lemma_xor_exchange(a, b, p, q);
        lemma_xor_exchange(0, 0, p, q);
        lemma_add_laws(0, 0, 0);
    }
}

proof fn lemma_prod_linear_right(a: u8, b: u8, c: u8)
    ensures
        prod(a, b ^ c) == prod(a, b) ^ prod(a, c),
    decreases b, c,
{
    lemma_add_laws(b, 0, 0);
    lemma_add_laws(c, 0, 0);
    lemma_add_laws(prod(a, b), 0, 0);
    lemma_add_laws(prod(a, c), 0, 0);
    if b != 0 && c != 0 {
        lemma_bits(b, c);
        lemma_bits(c, b);
        lemma_prod_linear_right(xtime(a), b >> 1, c >> 1);
        lemma_prod_step(a, b ^ c);
        lemma_prod_step(a, b);
        lemma_prod_step(a, c);
        let p = prod(xtime(a), b >> 1);
        let q = prod(xtime(a), c >> 1);
        lemma_xor_exchange(a, a, p, q);
        lemma_xor_exchange(a, 0, p, q);
        lemma_xor_exchange(0, a, p, q);
        lemma_xor_exchange(0, 0, p, q);
        lemma_add_laws(a, a, 0);
        lemma_add_laws(a, 0, 0);
        lemma_add_laws(0, 0, 0);
    }
}

proof fn lemma_prod_xtime_left(a: u8, b: u8)
    ensures
        prod(xtime(a), b) == xtime(prod(a, b)),
    decreases b,
{
    lemma_xtime(0, 0);
    if b != 0 {
        lemma_bits(b, 0);
        lemma_prod_xtime_left(xtime(a), b >> 1);
        lemma_xtime(a, prod(xtime(a), b >> 1));
        lemma_xtime(0, prod(xtime(a), b >> 1));
    }
}

proof fn lemma_prod_zero_one_left(b: u8)
    ensures
        prod(0, b) == 0,
        prod(1, b) == b,
        prod(b, 0) == 0,
        prod(b, 1) == b,
    decreases b,
{
    lemma_xtime(b, 0);
    lemma_add_laws(b, 0, 0);
    lemma_add_laws(0, 0, 0);
    lemma_bits(b, 0);
    if b != 0 {
        lemma_prod_zero_one_left(b >> 1);
        lemma_prod_xtime_left(1, b >> 1);
        lemma_add_laws(xtime(b >> 1), b & 1, 0);
    }
    assert(1u8 >> 1 == 0 && 1u8 & 1 == 1) by (bit_vector);
    assert(prod(xtime(b), 0) == 0);
    lemma_prod_step(b, 1);
}

/// Multiplication is commutative.
pub proof fn lemma_mul_commutative(a: u8, b: u8)
    ensures
        prod(a, b) == prod(b, a),
    decreases a,
{
    if a == 0 {
        lemma_prod_zero_one_left(b);
    } else {
        let h = a >> 1;
        lemma_bits(a, 0);
        lemma_xtime(a, 0);
        lemma_mul_commutative(h, b);
        lemma_prod_linear_left(xtime(h), a & 1, b);
        lemma_prod_xtime_left(h, b);
        lemma_prod_xtime_left(b, h);
        lemma_prod_zero_one_left(b);
        lemma_prod_step(b, a);
        lemma_add_laws(prod(xtime(b), h), b, 0);
        lemma_add_laws(prod(xtime(b), h), 0, 0);
    }
}

/// Multiplication is associative.
pub proof fn lemma_mul_associative(a: u8, b: u8, c: u8)
    ensures
        prod(prod(a, b), c) == prod(a, prod(b, c)),
    decreases c,
{
    if c == 0 {
        lemma_prod_zero_one_left(a);
    } else {
        lemma_bits(c, 0);
        lemma_mul_associative(a, xtime(b), c >> 1);
        lemma_mul_commutative(a, b);
        lemma_mul_commutative(a, xtime(b));
        lemma_prod_xtime_left(b, a);
        lemma_prod_linear_right(a, b, prod(xtime(b), c >> 1));
        lemma_prod_linear_right(a, 0, prod(xtime(b), c >> 1));
        lemma_prod_zero_one_left(a);
    }
}

/// Multiplication distributes over addition, on either side.
pub proof fn lemma_mul_distributive(a: u8, b: u8, c: u8)
    ensures
        prod(a, b ^ c) == prod(a, b) ^ prod(a, c),
        prod(b ^ c, a) == prod(b, a) ^ prod(c, a),
{
    lemma_prod_linear_right(a, b, c);
    lemma_prod_linear_left(b, c, a);
}

/// 1 is the unit of multiplication and 0 annihilates.
pub proof fn lemma_mul_units(a: u8)
    ensures
        prod(a, 1) == a,
        prod(1, a) == a,
        prod(a, 0) == 0,
        prod(0, a) == 0,
{
    lemma_prod_zero_one_left(a);
}

/// Squaring in the field, as the linear map it is.
spec fn square(a: u8) -> u8 {
    (if a & 1 != 0 { 0x01u8 } else { 0 }) ^ (if a & 2 != 0 { 0x04u8 } else { 0 })
        ^ (if a & 4 != 0 { 0x10u8 } else { 0 }) ^ (if a & 8 != 0 { 0x40u8 } else { 0 })
        ^ (if a & 16 != 0 { 0x1Du8 } else { 0 }) ^ (if a & 32 != 0 { 0x74u8 } else { 0 })
        ^ (if a & 64 != 0 { 0xCDu8 } else { 0 }) ^ (if a & 128 != 0 { 0x13u8 } else { 0 })
}

proof fn lemma_square_xtime(a: u8)
    by (bit_vector)
    ensures
        square(xtime(a)) == xtime(xtime(square(a))),
        square(1) == 1,
{
}

proof fn lemma_gen_pow_double(i: nat)
    ensures
        gen_pow(2 * i) == square(gen_pow(i)),
    decreases i,
{
    lemma_square_xtime(gen_pow((i - 1) as nat));
    if i > 0 {
        lemma_gen_pow_double((i - 1) as nat);
        assert(gen_pow((2 * i - 1) as nat) == xtime(gen_pow((2 * i - 2) as nat)));
        assert(gen_pow((2 * i) as nat) == xtime(gen_pow((2 * i - 1) as nat)));
    }
}

proof fn lemma_gen_pow_nonzero(i: nat)
    ensures
        gen_pow(i) != 0,
    decreases i,
{
    if i > 0 {
        lemma_gen_pow_nonzero((i - 1) as nat);
        lemma_xtime(gen_pow((i - 1) as nat), 0);
    }
}

/// The powers that decide the order of the generator.
proof fn lemma_gen_pow_landmarks()
    ensures
        gen_pow(15) != 1,
        gen_pow(51) != 1,
        gen_pow(85) != 1,
        gen_pow(255) == 1,
{
    assert(xtime(0x01) == 0x02 && xtime(0x02) == 0x04 && xtime(0x04) == 0x08 && xtime(0x08) == 0x10
        && xtime(0x10) == 0x20 && xtime(0xFD) == 0xE7 && xtime(0xE7) == 0xD3 && xtime(0xD3) == 0xBB
        && xtime(0xBB) == 0x6B && xtime(0x6B) == 0xD6 && xtime(0x46) == 0x8C && xtime(0x8C) == 0x05
        && xtime(0x05) == 0x0A && square(0x02) == 0x04 && square(0x04) == 0x10 && square(0x10)
        == 0x1D && square(0x1D) == 0x4C && square(0x4C) == 0x9D && square(0x9D) == 0x5F
        && square(0x5F) == 0x85 && square(0x85) == 0x02 && square(0x20) == 0x74 && square(0x74)
        == 0xB4 && square(0xB4) == 0x6A && square(0x6A) == 0xFD && square(0x08) == 0x40
        && square(0x40) == 0xCD && square(0xCD) == 0x8F && square(0x8F) == 0x46) by (bit_vector);
    reveal_with_fuel(gen_pow, 6);
    assert(gen_pow(1) == 0x02);
    assert(gen_pow(3) == 0x08);
    assert(gen_pow(5) == 0x20);
    lemma_gen_pow_double(1);
    lemma_gen_pow_double(2);
    lemma_gen_pow_double(4);
    lemma_gen_pow_double(8);
    lemma_gen_pow_double(16);
    lemma_gen_pow_double(32);
    lemma_gen_pow_double(64);
    lemma_gen_pow_double(128);
    assert(gen_pow(16) == 0x4C);
    assert(gen_pow(256) == 0x02);
    lemma_gen_pow_double(5);
    lemma_gen_pow_double(10);
    lemma_gen_pow_double(20);
    lemma_gen_pow_double(40);
    assert(gen_pow(80) == 0xFD);
    assert(gen_pow(85) == 0xD6);
    lemma_gen_pow_double(3);
    lemma_gen_pow_double(6);
    lemma_gen_pow_double(12);
    lemma_gen_pow_double(24);
    assert(gen_pow(48) == 0x46);
    assert(gen_pow(51) == 0x0A);
    assert(gen_pow(16) == xtime(gen_pow(15)));
    assert(gen_pow(256) == xtime(gen_pow(255)));
    lemma_xtime(gen_pow(255), 1);
}

proof fn lemma_gen_pow_periodic(i: nat, d: nat, q: nat)
    requires
        gen_pow(d) == 1,
    ensures
        gen_pow(i + d) == gen_pow(i),
        gen_pow(i + q * d) == gen_pow(i),
    decreases q, i,
{
    if i > 0 {
        lemma_gen_pow_periodic((i - 1) as nat, d, 0);
    }
    if q > 0 {
        lemma_gen_pow_periodic(i, d, (q - 1) as nat);
        lemma_gen_pow_periodic(i + (q - 1) as nat * d, d, 0);
        assert(q * d == (q - 1) * d + d) by (nonlinear_arith);
    } else {
        assert(q * d == 0) by (nonlinear_arith)
            requires
                q == 0,
        ;
    }
}

/// No positive exponent below 255 gives 1: the order of the generator is 255.
proof fn lemma_gen_pow_order(d: nat)
    requires
        0 < d < 255,
    ensures
        gen_pow(d) != 1,
    decreases d,
{
    if gen_pow(d) == 1 {
        lemma_gen_pow_landmarks();
        let q = 255nat / d;
        let r = 255nat % d;
        vstd::arithmetic::div_mod::lemma_fundamental_div_mod(255, d as int);
        assert(d * q == q * d) by (nonlinear_arith);
        lemma_gen_pow_periodic(r, d, q);
        assert(gen_pow(r) == 1);
        if r > 0 {
            lemma_gen_pow_order(r);
        } else {
            let d16 = d as u16;
            let q16 = q as u16;
            assert(q <= 255) by (nonlinear_arith)
                requires
                    q * d == 255,
                    d >= 1,
            ;
            assert(d16 == 1 || d16 == 3 || d16 == 5 || d16 == 15 || d16 == 17 || d16 == 51 || d16
                == 85) by (bit_vector)
                requires
                    0 < d16 < 255,
                    q16 <= 255,
                    q16 * d16 == 255,
            ;
            if d == 1 {
                lemma_gen_pow_periodic(0, 1, 15);
            } else if d == 3 {
                lemma_gen_pow_periodic(0, 3, 5);
            } else if d == 5 {
                lemma_gen_pow_periodic(0, 5, 3);
            } else if d == 17 {
                lemma_gen_pow_periodic(0, 17, 3);
            }
        }
    }
}

proof fn lemma_gen_pow_injective(i: nat, j: nat)
    requires
        i < j < 255,
    ensures
        gen_pow(i) != gen_pow(j),
    decreases i,
{
    if i == 0 {
        lemma_gen_pow_order(j);
    } else {
        lemma_gen_pow_injective((i - 1) as nat, (j - 1) as nat);
        lemma_xtime(gen_pow((i - 1) as nat), gen_pow((j - 1) as nat));
    }
}

/// Every nonzero element is a power of the generator.
pub proof fn lemma_gen_pow_surjective(a: u8) -> (i: nat)
    requires
        a != 0,
    ensures
        i < 255,
        gen_pow(i) == a,
{
    let q = Seq::new(255, |i: int| gen_pow(i as nat) as int);
    assert forall|i: int, j: int| 0 <= i < q.len() && 0 <= j < q.len() && i != j implies q[i]
        != q[j] by {
        if i < j {
            lemma_gen_pow_injective(i as nat, j as nat);
        } else {
            lemma_gen_pow_injective(j as nat, i as nat);
        }
    }
    assert(q.no_duplicates());
    q.unique_seq_to_set();
    let all = vstd::set_lib::set_int_range(1, 256);
    vstd::set_lib::lemma_int_range(1, 256);
    assert forall|x: int| q.to_set().contains(x) implies all.contains(x) by {
        assert(q.contains(x));
        let i = choose|i: int| 0 <= i < q.len() && q[i] == x;
        lemma_gen_pow_nonzero(i as nat);
    }
    assert(q.to_set().subset_of(all));
    vstd::set_lib::lemma_subset_equality(q.to_set(), all);
    assert(all.contains(a as int));
    assert(q.to_set().contains(a as int));
    assert(q.contains(a as int));
    let i = choose|i: int| 0 <= i < q.len() && q[i] == a as int;
    i as nat
}

/// Multiplying powers of the generator adds their exponents.
pub proof fn lemma_gen_pow_add(i: nat, j: nat)
    ensures
        prod(gen_pow(i), gen_pow(j)) == gen_pow(i + j),
    decreases i,
{
    if i == 0 {
        lemma_mul_units(gen_pow(j));
    } else {
        lemma_gen_pow_add((i - 1) as nat, j);
        lemma_prod_xtime_left(gen_pow((i - 1) as nat), gen_pow(j));
    }
}

proof fn lemma_gen_pow_wrap(i: nat)
    ensures
        gen_pow(i + 255) == gen_pow(i),
{
    lemma_gen_pow_landmarks();
    lemma_gen_pow_periodic(i, 255, 0);
}

/// The multiplicative inverse; 0 for 0.
pub open spec fn inverse(a: u8) -> u8 {
    if a == 0 {
        0
    } else {
        choose|b: u8| prod(a, b) == 1
    }
}

/// Every nonzero element times its inverse is 1.
pub proof fn lemma_mul_inverse(a: u8)
    requires
        a != 0,
    ensures
        prod(a, inverse(a)) == 1,
        prod(inverse(a), a) == 1,
        inverse(a) != 0,
{
    let i = lemma_gen_pow_surjective(a);
    lemma_gen_pow_add(i, (255 - i) as nat);
    lemma_gen_pow_landmarks();
    assert(prod(a, gen_pow((255 - i) as nat)) == 1);
    lemma_mul_commutative(a, inverse(a));
    lemma_mul_units(a);
}

/// The inverse is the only element whose product with `a` is 1.
pub proof fn lemma_inverse_unique(a: u8, b: u8)
    requires
        prod(a, b) == 1,
    ensures
        a != 0,
        b == inverse(a),
{
    lemma_mul_units(b);
    lemma_mul_inverse(a);
    let c = inverse(a);
    lemma_mul_associative(c, a, b);
    lemma_mul_units(c);
}

/// There are no zero divisors.
pub proof fn lemma_no_zero_divisors(a: u8, b: u8)
    requires
        prod(a, b) == 0,
    ensures
        a == 0 || b == 0,
{
    if a != 0 {
        lemma_mul_inverse(a);
        lemma_mul_associative(inverse(a), a, b);
        lemma_mul_units(b);
        lemma_mul_units(inverse(a));
    }
}

/// Taking the inverse twice gives the element back.
pub proof fn lemma_inverse_involutive(a: u8)
    ensures
        inverse(inverse(a)) == a,
{
    if a != 0 {
        lemma_mul_inverse(a);
        lemma_inverse_unique(inverse(a), a);
    }
}

/// Dividing by a nonzero element and multiplying by it again changes nothing.
pub proof fn lemma_div_undoes_mul(a: u8, b: u8)
    requires
        b != 0,
    ensures
        prod(prod(a, inverse(b)), b) == a,
{
    lemma_mul_inverse(b);
    lemma_mul_associative(a, inverse(b), b);
    lemma_mul_units(a);
}

/// Discrete exponentials and logarithms to the base `x`.
pub struct GfTables {
    pub exp: [u8; 512],
    pub log: [u8; 256],
}

impl GfTables {
    /// `exp` holds two periods of the powers of the generator, and `log`
    /// inverts the first of them.
    pub open spec fn wf(self) -> bool {
        &&& forall|i: int| 0 <= i < 510 ==> #[trigger] self.exp@[i] == gen_pow(i as nat)
        &&& forall|i: nat| i < 255 ==> self.log@[#[trigger] gen_pow(i) as int] == i
    }

    proof fn lemma_log(self, a: u8)
        requires
            self.wf(),
            a != 0,
        ensures
            self.log@[a as int] < 255,
            gen_pow(self.log@[a as int] as nat) == a,
    {
        let i = lemma_gen_pow_surjective(a);
        assert(self.log@[gen_pow(i) as int] == i);
    }

    /// The product, by adding logarithms.
    pub fn mul(&self, a: u8, b: u8) -> (r: u8)
        requires
            self.wf(),
        ensures
            r == prod(a, b),
    {
        proof {
            lemma_mul_units(a);
            lemma_mul_units(b);
        }
        if a == 0 || b == 0 {
            return 0;
        }
        proof {
            self.lemma_log(a);
            self.lemma_log(b);
            lemma_gen_pow_add(self.log@[a as int] as nat, self.log@[b as int] as nat);
        }
        self.exp[self.log[a as usize] as usize + self.log[b as usize] as usize]
    }

    /// The inverse, by negating the logarithm; 0 for 0.
    pub fn inv(&self, a: u8) -> (r: u8)
        requires
            self.wf(),
        ensures
            r == inverse(a),
    {
        if a == 0 {
            return 0;
        }
        proof {
            self.lemma_log(a);
            let i = self.log@[a as int] as nat;
            lemma_gen_pow_add(i, (255 - i) as nat);
            lemma_gen_pow_landmarks();
            lemma_inverse_unique(a, gen_pow((255 - i) as nat));
        }
        self.exp[255 - self.log[a as usize] as usize]
    }
}

/// The generator step in code.
fn times_x(a: u8) -> (r: u8)
    ensures
        r == xtime(a),
{
    if a & 0x80 != 0 {
        (a << 1) ^ 0x1D
    } else {
        proof {
            lemma_add_laws(a << 1, 0, 0);
        }
        a << 1
    }
}

/// Builds the tables by stepping through the powers of the generator.
pub fn build_tables() -> (t: GfTables)
    ensures
        t.wf(),
{
    let mut exp: [u8; 512] = [0; 512];
    let mut log: [u8; 256] = [0; 256];
    let mut x: u8 = 1;
    for i in 0..255usize
        invariant
            x == gen_pow(i as nat),
            forall|j: int| 0 <= j < i ==> #[trigger] exp@[j] == gen_pow(j as nat),
            forall|j: nat| j < i ==> log@[#[trigger] gen_pow(j) as int] == j,
    {
        exp[i] = x;
        let ghost before = log@;
        log[x as usize] = i as u8;
        proof {
            assert forall|j: nat| j < i + 1 implies log@[#[trigger] gen_pow(j) as int] == j by {
                if j < i {
                    lemma_gen_pow_injective(j, i as nat);
                    assert(before[gen_pow(j) as int] == j);
                }
            }
        }
        x = times_x(x);
    }
    for i in 0..255usize
        invariant
            forall|j: int| 0 <= j < 255 + i ==> #[trigger] exp@[j] == gen_pow(j as nat),
            forall|j: nat| j < 255 ==> log@[#[trigger] gen_pow(j) as int] == j,
    {
        proof {
            lemma_gen_pow_wrap(i as nat);
        }
        let e: u8 = exp[i];
        exp[255 + i] = e;
    }
    GfTables { exp, log }
}

/// The field's tables.
pub fn tables() -> (t: GfTables)
    ensures
        t.wf(),
{
    build_tables()
}

/// Addition, which is also subtraction.
pub fn add(a: u8, b: u8) -> (r: u8)
    ensures
        r == a ^ b,
{
    a ^ b
}

/// Multiplication.
pub fn mul(a: u8, b: u8) -> (r: u8)
    ensures
        r == prod(a, b),
{
    let mut acc: u8 = 0;
    let mut x: u8 = a;
    let mut y: u8 = b;
    proof {
        lemma_add_laws(prod(a, b), 0, 0);
    }
    while y != 0
        invariant
            acc ^ prod(x, y) == prod(a, b),
        decreases y,
    {
        proof {
            lemma_prod_step(x, y);
            lemma_bits(y, 0);
            lemma_add_laws(acc, x, prod(xtime(x), y >> 1));
            lemma_add_laws(prod(xtime(x), y >> 1), 0, 0);
        }
        if y & 1 != 0 {
            acc = acc ^ x;
        }
        x = times_x(x);
        y = y >> 1;
    }
    proof {
        lemma_add_laws(acc, 0, 0);
    }
    acc
}

/// The multiplicative inverse; 0 for 0.
pub fn inv(a: u8) -> (r: u8)
    ensures
        r == inverse(a),
{
    if a == 0 {
        return 0;
    }
    tables().inv(a)
}

/// Division: `a` times the inverse of `b`, so dividing by 0 gives 0.
pub fn div(a: u8, b: u8) -> (r: u8)
    ensures
        r == prod(a, inverse(b)),
        b == 0 ==> r == 0,
{
    proof {
        lemma_mul_units(a);
    }
    let i = inv(b);
    self::mul(a, i)
}

} // verus!
