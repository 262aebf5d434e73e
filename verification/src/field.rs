//! Arithmetic in GF(2^8), the field of 256 elements whose members are bytes
//! read as polynomials over GF(2) modulo x^8 + x^4 + x^3 + x + 1.

use vstd::prelude::*;

verus! {

/// Sum of two field elements. The field has characteristic 2, so the sum is
/// the bitwise exclusive or, and every element is its own negative.
pub open spec fn gf_add(a: u8, b: u8) -> u8 {
    a ^ b
}

/// The product `a * x`: one shift to the left, reduced by the field polynomial.
pub open spec fn gf_double(a: u8) -> u8 {
    if a & 0x80 == 0 {
        a << 1
    } else {
        (a << 1) ^ 0x1b
    }
}

/// `v` when bit `i` of `b` is set, zero otherwise.
pub open spec fn gf_term(b: u8, i: u8, v: u8) -> u8 {
    if (b >> i) & 1 == 1 {
        v
    } else {
        0
    }
}

/// Product of two field elements: the carry-less product of the two
/// polynomials, reduced by the field polynomial. Bit `i` of `b` contributes
/// `a * x^i`.
pub open spec fn gf_mul(a: u8, b: u8) -> u8 {
    let a1 = gf_double(a);
    let a2 = gf_double(a1);
    let a3 = gf_double(a2);
    let a4 = gf_double(a3);
    let a5 = gf_double(a4);
    let a6 = gf_double(a5);
    let a7 = gf_double(a6);
    gf_term(b, 0, a) ^ gf_term(b, 1, a1) ^ gf_term(b, 2, a2) ^ gf_term(b, 3, a3) ^ gf_term(
        b,
        4,
        a4,
    ) ^ gf_term(b, 5, a5) ^ gf_term(b, 6, a6) ^ gf_term(b, 7, a7)
}

/// Power of a field element: `a` multiplied by itself `n` times, with
/// `a^0 = 1` for every `a`, zero included.
pub open spec fn gf_pow(a: u8, n: nat) -> u8
    decreases n,
{
    if n == 0 {
        1
    } else {
        gf_mul(a, gf_pow(a, (n - 1) as nat))
    }
}

/// Multiplicative inverse. The nonzero elements form a group of order 255,
/// so the inverse of `a` is `a^254`. Zero has no inverse; the function is
/// meant for nonzero arguments only.
pub open spec fn gf_inv(a: u8) -> u8 {
    gf_pow(a, 254)
}

/// Quotient `a / b`, meant for nonzero `b`.
pub open spec fn gf_div(a: u8, b: u8) -> u8 {
    gf_mul(a, gf_inv(b))
}

/// Addition is commutative.
pub proof fn lemma_add_commutative(a: u8, b: u8)
    ensures
        gf_add(a, b) == gf_add(b, a),
{
    assert(a ^ b == b ^ a) by (bit_vector);
}

/// Addition is associative.
pub proof fn lemma_add_associative(a: u8, b: u8, c: u8)
    ensures
        gf_add(gf_add(a, b), c) == gf_add(a, gf_add(b, c)),
{
    assert((a ^ b) ^ c == a ^ (b ^ c)) by (bit_vector);
}

/// Zero is the neutral element of addition.
pub proof fn lemma_add_zero(a: u8)
    ensures
        gf_add(a, 0) == a,
        gf_add(0, a) == a,
{
    assert(a ^ 0 == a) by (bit_vector);
    assert(0 ^ a == a) by (bit_vector);
}

/// Every element is its own negative, and nothing else is.
pub proof fn lemma_add_self(a: u8, b: u8)
    ensures
        gf_add(a, a) == 0,
        gf_add(a, b) == 0 <==> a == b,
{
    assert(a ^ a == 0) by (bit_vector);
    assert(a ^ b == 0 <==> a == b) by (bit_vector);
}

/// Multiplication distributes over addition, from the left.
pub proof fn lemma_mul_distributive(a: u8, b: u8, c: u8)
    ensures
        gf_mul(a, gf_add(b, c)) == gf_add(gf_mul(a, b), gf_mul(a, c)),
{
    assert(gf_mul(a, b ^ c) == gf_mul(a, b) ^ gf_mul(a, c)) by (bit_vector);
}

/// Multiplication by `x` is additive.
proof fn lemma_double_additive(a: u8, b: u8)
    ensures
        gf_double(a ^ b) == gf_double(a) ^ gf_double(b),
{
    assert(gf_double(a ^ b) == gf_double(a) ^ gf_double(b)) by (bit_vector);
}

/// Selecting by a bit is additive in the selected value.
proof fn lemma_term_additive(c: u8, i: u8, u: u8, v: u8)
    ensures
        gf_term(c, i, u ^ v) == gf_term(c, i, u) ^ gf_term(c, i, v),
{
    assert(0u8 ^ 0u8 == 0u8) by (bit_vector);
}

/// A sum of eight sums is the sum of the first summands plus the sum of the
/// second ones.
proof fn lemma_add_interleave(
    u0: u8,
    u1: u8,
    u2: u8,
    u3: u8,
    u4: u8,
    u5: u8,
    u6: u8,
    u7: u8,
    v0: u8,
    v1: u8,
    v2: u8,
    v3: u8,
    v4: u8,
    v5: u8,
    v6: u8,
    v7: u8,
)
    ensures
        (u0 ^ v0) ^ (u1 ^ v1) ^ (u2 ^ v2) ^ (u3 ^ v3) ^ (u4 ^ v4) ^ (u5 ^ v5) ^ (u6 ^ v6) ^ (u7
            ^ v7) == (u0 ^ u1 ^ u2 ^ u3 ^ u4 ^ u5 ^ u6 ^ u7) ^ (v0 ^ v1 ^ v2 ^ v3 ^ v4 ^ v5 ^ v6
            ^ v7),
{
    assert((u0 ^ v0) ^ (u1 ^ v1) ^ (u2 ^ v2) ^ (u3 ^ v3) ^ (u4 ^ v4) ^ (u5 ^ v5) ^ (u6 ^ v6) ^ (u7
        ^ v7) == (u0 ^ u1 ^ u2 ^ u3 ^ u4 ^ u5 ^ u6 ^ u7) ^ (v0 ^ v1 ^ v2 ^ v3 ^ v4 ^ v5 ^ v6
        ^ v7)) by (bit_vector);
}

/// Multiplication distributes over addition, from the right.
pub proof fn lemma_mul_distributive_left(a: u8, b: u8, c: u8)
    ensures
        gf_mul(gf_add(a, b), c) == gf_add(gf_mul(a, c), gf_mul(b, c)),
{
    let a1 = gf_double(a);
    let a2 = gf_double(a1);
    let a3 = gf_double(a2);
    let a4 = gf_double(a3);
    let a5 = gf_double(a4);
    let a6 = gf_double(a5);
    let a7 = gf_double(a6);
    let b1 = gf_double(b);
    let b2 = gf_double(b1);
    let b3 = gf_double(b2);
    let b4 = gf_double(b3);
    let b5 = gf_double(b4);
    let b6 = gf_double(b5);
    let b7 = gf_double(b6);
    lemma_double_additive(a, b);
    lemma_double_additive(a1, b1);
    lemma_double_additive(a2, b2);
    lemma_double_additive(a3, b3);
    lemma_double_additive(a4, b4);
    lemma_double_additive(a5, b5);
    lemma_double_additive(a6, b6);
    lemma_term_additive(c, 0, a, b);
    lemma_term_additive(c, 1, a1, b1);
    lemma_term_additive(c, 2, a2, b2);
    lemma_term_additive(c, 3, a3, b3);
    lemma_term_additive(c, 4, a4, b4);
    lemma_term_additive(c, 5, a5, b5);
    lemma_term_additive(c, 6, a6, b6);
    lemma_term_additive(c, 7, a7, b7);
    lemma_add_interleave(
        gf_term(c, 0, a),
        gf_term(c, 1, a1),
        gf_term(c, 2, a2),
        gf_term(c, 3, a3),
        gf_term(c, 4, a4),
        gf_term(c, 5, a5),
        gf_term(c, 6, a6),
        gf_term(c, 7, a7),
        gf_term(c, 0, b),
        gf_term(c, 1, b1),
        gf_term(c, 2, b2),
        gf_term(c, 3, b3),
        gf_term(c, 4, b4),
        gf_term(c, 5, b5),
        gf_term(c, 6, b6),
        gf_term(c, 7, b7),
    );
}

/// A product with zero is zero.
pub proof fn lemma_mul_zero(a: u8)
    ensures
        gf_mul(a, 0) == 0,
        gf_mul(0, a) == 0,
{
    assert(gf_mul(a, 0) == 0) by (bit_vector);
    assert(gf_mul(0, a) == 0) by (bit_vector);
}

/// One is the neutral element of multiplication.
pub proof fn lemma_mul_one(a: u8)
    ensures
        gf_mul(a, 1) == a,
        gf_mul(1, a) == a,
{
    assert(gf_mul(a, 1) == a) by (bit_vector);
    assert(gf_mul(1, a) == a) by (bit_vector);
}

/// Multiplying the left factor by `x` multiplies the product by `x`.
proof fn lemma_double_mul(a: u8, b: u8)
    ensures
        gf_mul(gf_double(a), b) == gf_double(gf_mul(a, b)),
{
    let a1 = gf_double(a);
    let a2 = gf_double(a1);
    let a3 = gf_double(a2);
    let a4 = gf_double(a3);
    let a5 = gf_double(a4);
    let a6 = gf_double(a5);
    let a7 = gf_double(a6);
    let t0 = gf_term(b, 0, a);
    let t1 = gf_term(b, 1, a1);
    let t2 = gf_term(b, 2, a2);
    let t3 = gf_term(b, 3, a3);
    let t4 = gf_term(b, 4, a4);
    let t5 = gf_term(b, 5, a5);
    let t6 = gf_term(b, 6, a6);
    let t7 = gf_term(b, 7, a7);
    assert(gf_double(0) == 0) by (bit_vector);
    lemma_double_additive(t0, t1);
    lemma_double_additive(t0 ^ t1, t2);
    lemma_double_additive(t0 ^ t1 ^ t2, t3);
    lemma_double_additive(t0 ^ t1 ^ t2 ^ t3, t4);
    lemma_double_additive(t0 ^ t1 ^ t2 ^ t3 ^ t4, t5);
    lemma_double_additive(t0 ^ t1 ^ t2 ^ t3 ^ t4 ^ t5, t6);
    lemma_double_additive(t0 ^ t1 ^ t2 ^ t3 ^ t4 ^ t5 ^ t6, t7);
}

/// A byte is the sum of its bits.
proof fn lemma_bits(a: u8)
    ensures
        a == gf_term(a, 0, 0x01) ^ gf_term(a, 1, 0x02) ^ gf_term(a, 2, 0x04) ^ gf_term(a, 3, 0x08)
            ^ gf_term(a, 4, 0x10) ^ gf_term(a, 5, 0x20) ^ gf_term(a, 6, 0x40) ^ gf_term(
            a,
            7,
            0x80,
        ),
{
    assert(a == gf_term(a, 0, 0x01) ^ gf_term(a, 1, 0x02) ^ gf_term(a, 2, 0x04) ^ gf_term(
        a,
        3,
        0x08,
    ) ^ gf_term(a, 4, 0x10) ^ gf_term(a, 5, 0x20) ^ gf_term(a, 6, 0x40) ^ gf_term(a, 7, 0x80))
        by (bit_vector);
}

/// The powers of `x` below `x^8` are the single bits.
proof fn lemma_double_bits()
    ensures
        gf_double(0x01) == 0x02,
        gf_double(0x02) == 0x04,
        gf_double(0x04) == 0x08,
        gf_double(0x08) == 0x10,
        gf_double(0x10) == 0x20,
        gf_double(0x20) == 0x40,
        gf_double(0x40) == 0x80,
{
    assert(gf_double(0x01) == 0x02 && gf_double(0x02) == 0x04 && gf_double(0x04) == 0x08
        && gf_double(0x08) == 0x10 && gf_double(0x10) == 0x20 && gf_double(0x20) == 0x40
        && gf_double(0x40) == 0x80) by (bit_vector);
}

/// The product of a sum of eight terms, each either zero or a given value,
/// with `c`: the sum of the eight products.
proof fn lemma_mul_bit_sum(
    a: u8,
    v0: u8,
    v1: u8,
    v2: u8,
    v3: u8,
    v4: u8,
    v5: u8,
    v6: u8,
    v7: u8,
    c: u8,
)
    ensures
        gf_mul(
            gf_term(a, 0, v0) ^ gf_term(a, 1, v1) ^ gf_term(a, 2, v2) ^ gf_term(a, 3, v3) ^ gf_term(
                a,
                4,
                v4,
            ) ^ gf_term(a, 5, v5) ^ gf_term(a, 6, v6) ^ gf_term(a, 7, v7),
            c,
        ) == gf_term(a, 0, gf_mul(v0, c)) ^ gf_term(a, 1, gf_mul(v1, c)) ^ gf_term(
            a,
            2,
            gf_mul(v2, c),
        ) ^ gf_term(a, 3, gf_mul(v3, c)) ^ gf_term(a, 4, gf_mul(v4, c)) ^ gf_term(
            a,
            5,
            gf_mul(v5, c),
        ) ^ gf_term(a, 6, gf_mul(v6, c)) ^ gf_term(a, 7, gf_mul(v7, c)),
{
    let t0 = gf_term(a, 0, v0);
    let t1 = gf_term(a, 1, v1);
    let t2 = gf_term(a, 2, v2);
    let t3 = gf_term(a, 3, v3);
    let t4 = gf_term(a, 4, v4);
    let t5 = gf_term(a, 5, v5);
    let t6 = gf_term(a, 6, v6);
    let t7 = gf_term(a, 7, v7);
    lemma_mul_zero(c);
    lemma_mul_distributive_left(t0, t1, c);
    lemma_mul_distributive_left(t0 ^ t1, t2, c);
    lemma_mul_distributive_left(t0 ^ t1 ^ t2, t3, c);
    lemma_mul_distributive_left(t0 ^ t1 ^ t2 ^ t3, t4, c);
    lemma_mul_distributive_left(t0 ^ t1 ^ t2 ^ t3 ^ t4, t5, c);
    lemma_mul_distributive_left(t0 ^ t1 ^ t2 ^ t3 ^ t4 ^ t5, t6, c);
    lemma_mul_distributive_left(t0 ^ t1 ^ t2 ^ t3 ^ t4 ^ t5 ^ t6, t7, c);
}

/// Multiplication is commutative.
pub proof fn lemma_mul_commutative(a: u8, b: u8)
    ensures
        gf_mul(a, b) == gf_mul(b, a),
{
    lemma_bits(a);
    lemma_mul_bit_sum(a, 0x01, 0x02, 0x04, 0x08, 0x10, 0x20, 0x40, 0x80, b);
    lemma_double_bits();
    lemma_mul_one(b);
    lemma_double_mul(0x01, b);
    lemma_double_mul(0x02, b);
    lemma_double_mul(0x04, b);
    lemma_double_mul(0x08, b);
    lemma_double_mul(0x10, b);
    lemma_double_mul(0x20, b);
    lemma_double_mul(0x40, b);
}

/// Multiplication is associative.
pub proof fn lemma_mul_associative(a: u8, b: u8, c: u8)
    ensures
        gf_mul(gf_mul(a, b), c) == gf_mul(a, gf_mul(b, c)),
{
    let b1 = gf_double(b);
    let b2 = gf_double(b1);
    let b3 = gf_double(b2);
    let b4 = gf_double(b3);
    let b5 = gf_double(b4);
    let b6 = gf_double(b5);
    let b7 = gf_double(b6);
    lemma_mul_commutative(a, b);
    lemma_mul_bit_sum(a, b, b1, b2, b3, b4, b5, b6, b7, c);
    lemma_double_mul(b, c);
    lemma_double_mul(b1, c);
    lemma_double_mul(b2, c);
    lemma_double_mul(b3, c);
    lemma_double_mul(b4, c);
    lemma_double_mul(b5, c);
    lemma_double_mul(b6, c);
    lemma_mul_commutative(gf_mul(b, c), a);
}

/// Powers of one element multiply by adding their exponents.
pub proof fn lemma_pow_add(a: u8, m: nat, n: nat)
    ensures
        gf_mul(gf_pow(a, m), gf_pow(a, n)) == gf_pow(a, m + n),
    decreases m,
{
    if m == 0 {
        lemma_mul_one(gf_pow(a, n));
    } else {
        lemma_pow_add(a, (m - 1) as nat, n);
        lemma_mul_associative(a, gf_pow(a, (m - 1) as nat), gf_pow(a, n));
        assert(gf_pow(a, m + n) == gf_mul(a, gf_pow(a, (m + n - 1) as nat)));
    }
}

/// The first and the second power.
pub proof fn lemma_pow_small(a: u8)
    ensures
        gf_pow(a, 0) == 1,
        gf_pow(a, 1) == a,
        gf_pow(a, 2) == gf_mul(a, a),
{
    lemma_mul_one(a);
    assert(gf_pow(a, 1) == gf_mul(a, gf_pow(a, 0)));
    assert(gf_pow(a, 2) == gf_mul(a, gf_pow(a, 1)));
}

/// Squaring the base doubles the exponent.
pub proof fn lemma_pow_square(a: u8, n: nat)
    ensures
        gf_pow(gf_mul(a, a), n) == gf_pow(a, 2 * n),
    decreases n,
{
    if n > 0 {
        lemma_pow_square(a, (n - 1) as nat);
        lemma_pow_small(a);
        lemma_pow_add(a, 2, (2 * (n - 1)) as nat);
    }
}

/// The multiplicative group has order 255.
pub proof fn lemma_pow_order(a: u8)
    requires
        a != 0,
    ensures
        gf_pow(a, 255) == 1,
{
    let e1 = gf_pow(a, 1);
    let e2 = gf_pow(a, 2);
    let e3 = gf_pow(a, 3);
    let e6 = gf_pow(a, 6);
    let e7 = gf_pow(a, 7);
    let e14 = gf_pow(a, 14);
    let e15 = gf_pow(a, 15);
    let e30 = gf_pow(a, 30);
    let e60 = gf_pow(a, 60);
    let e120 = gf_pow(a, 120);
    let e240 = gf_pow(a, 240);
    let e255 = gf_pow(a, 255);
    lemma_pow_small(a);
    lemma_pow_add(a, 1, 1);
    lemma_pow_add(a, 2, 1);
    lemma_pow_add(a, 3, 3);
    lemma_pow_add(a, 6, 1);
    lemma_pow_add(a, 7, 7);
    lemma_pow_add(a, 14, 1);
    lemma_pow_add(a, 15, 15);
    lemma_pow_add(a, 30, 30);
    lemma_pow_add(a, 60, 60);
    lemma_pow_add(a, 120, 120);
    lemma_pow_add(a, 240, 15);
    assert(e255 == 1) by (bit_vector)
        requires
            a != 0,
            e2 == gf_mul(a, a),
            e3 == gf_mul(e2, a),
            e6 == gf_mul(e3, e3),
            e7 == gf_mul(e6, a),
            e14 == gf_mul(e7, e7),
            e15 == gf_mul(e14, a),
            e30 == gf_mul(e15, e15),
            e60 == gf_mul(e30, e30),
            e120 == gf_mul(e60, e60),
            e240 == gf_mul(e120, e120),
            e255 == gf_mul(e240, e15),
    ;
}

/// Every nonzero element times its inverse is one.
pub proof fn lemma_inverse(a: u8)
    requires
        a != 0,
    ensures
        gf_mul(a, gf_inv(a)) == 1,
        gf_mul(gf_inv(a), a) == 1,
        gf_inv(a) != 0,
{
    lemma_pow_order(a);
    assert(gf_pow(a, 255) == gf_mul(a, gf_pow(a, 254)));
    lemma_mul_commutative(a, gf_inv(a));
    lemma_mul_zero(a);
}

/// A product is zero only if a factor is.
pub proof fn lemma_no_zero_divisors(a: u8, b: u8)
    requires
        gf_mul(a, b) == 0,
    ensures
        a == 0 || b == 0,
{
    if a != 0 {
        lemma_inverse(a);
        lemma_mul_associative(gf_inv(a), a, b);
        lemma_mul_one(b);
        lemma_mul_zero(gf_inv(a));
    }
}

/// Sum of two field elements.
pub fn add(a: u8, b: u8) -> (r: u8)
    ensures
        r == gf_add(a, b),
{
    a ^ b
}

/// Difference of two field elements, which in characteristic 2 is their sum.
pub fn sub(a: u8, b: u8) -> (r: u8)
    ensures
        r == gf_add(a, b),
{
    a ^ b
}

fn double(a: u8) -> (r: u8)
    ensures
        r == gf_double(a),
{
    if a & 0x80 == 0 {
        a << 1
    } else {
        (a << 1) ^ 0x1b
    }
}

fn term(b: u8, i: u8, v: u8) -> (r: u8)
    requires
        i < 8,
    ensures
        r == gf_term(b, i, v),
{
    if (b >> i) & 1 == 1 {
        v
    } else {
        0
    }
}

/// Product of two field elements.
pub fn mul(a: u8, b: u8) -> (r: u8)
    ensures
        r == gf_mul(a, b),
{
    let a1: u8 = double(a);
    let a2: u8 = double(a1);
    let a3: u8 = double(a2);
    let a4: u8 = double(a3);
    let a5: u8 = double(a4);
    let a6: u8 = double(a5);
    let a7: u8 = double(a6);
    term(b, 0, a) ^ term(b, 1, a1) ^ term(b, 2, a2) ^ term(b, 3, a3) ^ term(b, 4, a4) ^ term(
        b,
        5,
        a5,
    ) ^ term(b, 6, a6) ^ term(b, 7, a7)
}

/// The power `a^j`, by repeated squaring.
pub fn pow(a: u8, j: usize) -> (r: u8)
    ensures
        r == gf_pow(a, j as nat),
{
    let mut result: u8 = 1;
    let mut base: u8 = a;
    let mut e: usize = j;
    proof {
        lemma_mul_one(gf_pow(a, j as nat));
    }
    while e > 0
        invariant
            gf_mul(result, gf_pow(base, e as nat)) == gf_pow(a, j as nat),
        decreases e,
    {
        proof {
            let half = (e / 2) as nat;
            lemma_pow_square(base, half);
            if e % 2 == 1 {
                lemma_pow_small(base);
                lemma_pow_add(base, 1, 2 * half);
                lemma_mul_associative(result, base, gf_pow(base, 2 * half));
            }
        }
        if e % 2 == 1 {
            result = self::mul(result, base);
        }
        base = self::mul(base, base);
        e = e / 2;
    }
    proof {
        lemma_mul_one(result);
    }
    result
}

/// Multiplicative inverse of a nonzero element.
pub fn inv(a: u8) -> (r: u8)
    requires
        a != 0,
    ensures
        r == gf_inv(a),
        gf_mul(a, r) == 1,
{
    proof {
        lemma_inverse(a);
    }
    pow(a, 254)
}

} // verus!
