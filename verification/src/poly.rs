//! Polynomials over GF(2^8), given by their coefficients from the constant
//! term upwards: evaluation, the Vandermonde matrix, and the fact that a
//! polynomial with `k` coefficients is fixed by its values at `k` points.

use vstd::prelude::*;
use crate::field::{
    gf_add,
    gf_div,
    gf_inv,
    gf_mul,
    gf_pow,
    lemma_add_associative,
    lemma_add_commutative,
    lemma_add_self,
    lemma_add_zero,
    lemma_inverse,
    lemma_mul_associative,
    lemma_mul_commutative,
    lemma_mul_distributive,
    lemma_mul_distributive_left,
    lemma_mul_one,
    lemma_mul_zero,
    lemma_no_zero_divisors,
};
use crate::linear::{
    dot_prefix,
    is_matrix,
    is_null_vector,
    lemma_dot_congruent,
    lemma_dot_unit_right,
    mat_vec,
    singular,
    undoes,
    unit_vec,
    zero_vec,
};

verus! {

/// Value of the polynomial with coefficients `c` at `x`, in Horner's form:
/// `c[0] + x * (c[1] + x * (c[2] + ...))`.
pub open spec fn poly_eval(c: Seq<u8>, x: u8) -> u8
    decreases c.len(),
{
    if c.len() == 0 {
        0
    } else {
        gf_add(c[0], gf_mul(x, poly_eval(c.drop_first(), x)))
    }
}

/// The powers `x^0, x^1, ..., x^(n-1)`.
pub open spec fn powers(x: u8, n: nat) -> Seq<u8> {
    Seq::new(n, |j: int| gf_pow(x, j as nat))
}

/// The Vandermonde matrix of the first `k` points of `xs`: the entry in row
/// `i` and column `j` is `xs[i]^j`.
pub open spec fn vandermonde(xs: Seq<u8>, k: nat) -> Seq<Seq<u8>> {
    Seq::new(k, |i: int| powers(xs[i], k))
}

/// The first `k` points of `xs` are pairwise different.
pub open spec fn distinct(xs: Seq<u8>, k: nat) -> bool {
    forall|i: int, j: int| 0 <= i < j < k ==> xs[i] != xs[j]
}

/// The sum of `c[t] * x^t` over `t < n` is `c[0]` plus `x` times the same
/// sum for the coefficients after the first.
proof fn lemma_power_sum_step(c: Seq<u8>, x: u8, len: nat, n: nat)
    requires
        1 <= n <= len,
        n <= c.len(),
    ensures
        dot_prefix(powers(x, len), c, n) == gf_add(
            c[0],
            gf_mul(x, dot_prefix(powers(x, len), c.drop_first(), (n - 1) as nat)),
        ),
    decreases n,
{
    let p = powers(x, len);
    let d = c.drop_first();
    if n == 1 {
        lemma_mul_zero(x);
        lemma_mul_one(c[0]);
        lemma_add_zero(c[0]);
        assert(dot_prefix(p, c, 0) == 0);
        assert(dot_prefix(p, d, 0) == 0);
        assert(dot_prefix(p, c, 1) == gf_add(dot_prefix(p, c, 0), gf_mul(p[0], c[0])));
    } else {
        let m = (n - 1) as nat;
        lemma_power_sum_step(c, x, len, m);
        let inner = dot_prefix(p, d, (m - 1) as nat);
        let last = gf_mul(p[m - 1], d[m - 1]);
        assert(d[m - 1] == c[m as int]);
        assert(p[m as int] == gf_mul(x, p[m - 1]));
        lemma_mul_associative(x, p[m - 1], c[m as int]);
        lemma_mul_distributive(x, inner, last);
        lemma_add_associative(c[0], gf_mul(x, inner), gf_mul(x, last));
    }
}

/// The dot product of the powers of `x` with the coefficients is the value
/// of the polynomial at `x`.
pub proof fn lemma_power_sum(c: Seq<u8>, x: u8, len: nat)
    requires
        c.len() <= len,
    ensures
        dot_prefix(powers(x, len), c, c.len()) == poly_eval(c, x),
    decreases c.len(),
{
    if c.len() > 0 {
        lemma_power_sum_step(c, x, len, c.len());
        lemma_power_sum(c.drop_first(), x, len);
    }
}

/// Row `i` of the Vandermonde matrix times `v` is the value at `xs[i]` of
/// the polynomial with coefficients `v`.
pub proof fn lemma_vandermonde_apply(xs: Seq<u8>, k: nat, v: Seq<u8>, i: int)
    requires
        v.len() == k,
        0 <= i < k,
    ensures
        mat_vec(vandermonde(xs, k), v)[i] == poly_eval(v, xs[i]),
{
    lemma_power_sum(v, xs[i], k);
}

/// Quotient of the polynomial `c` by `X + a`.
pub open spec fn synth_div(c: Seq<u8>, a: u8) -> Seq<u8>
    decreases c.len(),
{
    if c.len() <= 1 {
        Seq::empty()
    } else {
        seq![poly_eval(c.drop_first(), a)] + synth_div(c.drop_first(), a)
    }
}

/// The quotient has one coefficient less.
proof fn lemma_synth_div_len(c: Seq<u8>, a: u8)
    ensures
        synth_div(c, a).len() == if c.len() == 0 {
            0
        } else {
            c.len() - 1
        },
    decreases c.len(),
{
    if c.len() > 1 {
        lemma_synth_div_len(c.drop_first(), a);
    }
}

/// `c0 + x * ((x + a) * q + r) = (x + a) * (r + x * q) + (c0 + a * r)`.
proof fn lemma_division_step(c0: u8, x: u8, a: u8, q: u8, r: u8)
    ensures
        gf_add(c0, gf_mul(x, gf_add(gf_mul(gf_add(x, a), q), r))) == gf_add(
            gf_mul(gf_add(x, a), gf_add(r, gf_mul(x, q))),
            gf_add(c0, gf_mul(a, r)),
        ),
{
    let xa = gf_add(x, a);
    let xr = gf_mul(x, r);
    let ar = gf_mul(a, r);
    let xxaq = gf_mul(x, gf_mul(xa, q));
    // left side: c0 + (x * (xa * q) + x * r)
    lemma_mul_distributive(x, gf_mul(xa, q), r);
    // right side: xa * r + xa * (x * q) + (c0 + a * r)
    lemma_mul_distributive(xa, r, gf_mul(x, q));
    lemma_mul_distributive_left(x, a, r);
    lemma_mul_associative(xa, x, q);
    lemma_mul_commutative(xa, x);
    lemma_mul_associative(x, xa, q);
    assert(gf_mul(xa, gf_mul(x, q)) == xxaq);
    assert(gf_mul(xa, r) == xr ^ ar);
    assert(c0 ^ (xxaq ^ xr) == ((xr ^ ar) ^ xxaq) ^ (c0 ^ ar)) by (bit_vector);
}

/// Division with remainder: `c(x) = (x + a) * q(x) + c(a)` where `q` is the
/// quotient of `c` by `X + a`.
pub proof fn lemma_synth_div(c: Seq<u8>, a: u8, x: u8)
    ensures
        poly_eval(c, x) == gf_add(
            gf_mul(gf_add(x, a), poly_eval(synth_div(c, a), x)),
            poly_eval(c, a),
        ),
    decreases c.len(),
{
    let xa = gf_add(x, a);
    if c.len() == 0 {
        lemma_mul_zero(xa);
        lemma_add_zero(0);
    } else if c.len() == 1 {
        lemma_mul_zero(xa);
        lemma_mul_zero(x);
        lemma_mul_zero(a);
        lemma_add_zero(c[0]);
        assert(c.drop_first().len() == 0);
        assert(poly_eval(c.drop_first(), x) == 0);
        assert(poly_eval(c.drop_first(), a) == 0);
        assert(synth_div(c, a).len() == 0);
        lemma_add_zero(gf_add(c[0], 0));
    } else {
        let d = c.drop_first();
        lemma_synth_div(d, a, x);
        let q = synth_div(d, a);
        let r = poly_eval(d, a);
        let whole = synth_div(c, a);
        assert(whole[0] == r);
        assert(whole.drop_first() =~= q);
        assert(poly_eval(whole, x) == gf_add(r, gf_mul(x, poly_eval(q, x))));
        lemma_division_step(c[0], x, a, poly_eval(q, x), r);
    }
}

/// A polynomial whose quotient by `X + a` is zero and that vanishes at `a`
/// is zero.
proof fn lemma_synth_div_zero(c: Seq<u8>, a: u8)
    requires
        poly_eval(c, a) == 0,
        forall|t: int| 0 <= t < synth_div(c, a).len() ==> synth_div(c, a)[t] == 0,
    ensures
        forall|t: int| 0 <= t < c.len() ==> c[t] == 0,
    decreases c.len(),
{
    if c.len() == 1 {
        assert(c.drop_first().len() == 0);
        assert(poly_eval(c.drop_first(), a) == 0);
        lemma_mul_zero(a);
        lemma_add_zero(c[0]);
    } else if c.len() > 1 {
        let d = c.drop_first();
        let whole = synth_div(c, a);
        lemma_synth_div_len(c, a);
        assert(whole[0] == poly_eval(d, a));
        assert forall|t: int| 0 <= t < synth_div(d, a).len() implies synth_div(d, a)[t] == 0 by {
            assert(whole[t + 1] == synth_div(d, a)[t]);
        }
        lemma_synth_div_zero(d, a);
        lemma_mul_zero(a);
        lemma_add_zero(c[0]);
        assert forall|t: int| 0 <= t < c.len() implies c[t] == 0 by {
            if t > 0 {
                assert(d[t - 1] == c[t]);
            }
        }
    }
}

/// A polynomial with `k` coefficients that vanishes at `k` different points
/// is zero.
pub proof fn lemma_roots_force_zero(c: Seq<u8>, xs: Seq<u8>, k: nat)
    requires
        c.len() == k,
        distinct(xs, k),
        forall|i: int| 0 <= i < k ==> poly_eval(c, #[trigger] xs[i]) == 0,
    ensures
        forall|t: int| 0 <= t < k ==> c[t] == 0,
    decreases k,
{
    if k > 0 {
        let a = xs[k - 1];
        let q = synth_div(c, a);
        lemma_synth_div_len(c, a);
        assert forall|i: int| 0 <= i < k - 1 implies poly_eval(q, #[trigger] xs[i]) == 0 by {
            lemma_synth_div(c, a, xs[i]);
            lemma_mul_zero(gf_add(xs[i], a));
            lemma_add_zero(gf_mul(gf_add(xs[i], a), poly_eval(q, xs[i])));
            lemma_add_self(xs[i], a);
            lemma_no_zero_divisors(gf_add(xs[i], a), poly_eval(q, xs[i]));
        }
        lemma_roots_force_zero(q, xs, (k - 1) as nat);
        lemma_synth_div_zero(c, a);
    }
}

/// The Vandermonde matrix of pairwise different points is not singular.
pub proof fn lemma_vandermonde_regular(xs: Seq<u8>, k: nat)
    requires
        distinct(xs, k),
    ensures
        is_matrix(vandermonde(xs, k), k, k),
        !singular(vandermonde(xs, k)),
{
    let m = vandermonde(xs, k);
    assert forall|v: Seq<u8>| is_null_vector(m, v) implies false by {
        assert forall|i: int| 0 <= i < k implies poly_eval(v, #[trigger] xs[i]) == 0 by {
            lemma_vandermonde_apply(xs, k, v, i);
            assert(mat_vec(m, v)[i] == zero_vec(k)[i]);
        }
        lemma_roots_force_zero(v, xs, k);
        assert(v =~= zero_vec(k));
    }
}

/// Sum of two polynomials with the same number of coefficients.
pub open spec fn poly_add(p: Seq<u8>, q: Seq<u8>) -> Seq<u8> {
    Seq::new(p.len(), |t: int| gf_add(p[t], q[t]))
}

/// The polynomial `s * p`.
pub open spec fn poly_scale(p: Seq<u8>, s: u8) -> Seq<u8> {
    Seq::new(p.len(), |t: int| gf_mul(s, p[t]))
}

/// The polynomial `(X + a) * p`, with one coefficient more than `p`.
pub open spec fn poly_times_linear(p: Seq<u8>, a: u8) -> Seq<u8>
    decreases p.len(),
{
    if p.len() == 0 {
        seq![0u8]
    } else {
        let r = poly_times_linear(p.drop_first(), a);
        seq![gf_mul(a, p[0])] + r.update(0, gf_add(r[0], p[0]))
    }
}

/// The zero polynomial is zero everywhere.
proof fn lemma_eval_zero(k: nat, x: u8)
    ensures
        poly_eval(zero_vec(k), x) == 0,
    decreases k,
{
    if k > 0 {
        lemma_eval_zero((k - 1) as nat, x);
        assert(zero_vec(k).drop_first() =~= zero_vec((k - 1) as nat));
        lemma_mul_zero(x);
        lemma_add_zero(0);
    }
}

/// The value of a sum is the sum of the values.
pub proof fn lemma_eval_add(p: Seq<u8>, q: Seq<u8>, x: u8)
    requires
        p.len() == q.len(),
    ensures
        poly_eval(poly_add(p, q), x) == gf_add(poly_eval(p, x), poly_eval(q, x)),
    decreases p.len(),
{
    if p.len() == 0 {
        lemma_add_zero(0);
    } else {
        let p_rest = p.drop_first();
        let q_rest = q.drop_first();
        lemma_eval_add(p_rest, q_rest, x);
        assert(poly_add(p, q).drop_first() =~= poly_add(p_rest, q_rest));
        let e1 = poly_eval(p_rest, x);
        let e2 = poly_eval(q_rest, x);
        lemma_mul_distributive(x, e1, e2);
        let a = p[0];
        let b = q[0];
        let c = gf_mul(x, e1);
        let d = gf_mul(x, e2);
        assert((a ^ b) ^ (c ^ d) == (a ^ c) ^ (b ^ d)) by (bit_vector);
    }
}

/// The value of `s * p` is `s` times the value of `p`.
pub proof fn lemma_eval_scale(p: Seq<u8>, s: u8, x: u8)
    ensures
        poly_eval(poly_scale(p, s), x) == gf_mul(s, poly_eval(p, x)),
    decreases p.len(),
{
    if p.len() == 0 {
        lemma_mul_zero(s);
    } else {
        let p_rest = p.drop_first();
        lemma_eval_scale(p_rest, s, x);
        assert(poly_scale(p, s).drop_first() =~= poly_scale(p_rest, s));
        let e = poly_eval(p_rest, x);
        lemma_mul_distributive(s, p[0], gf_mul(x, e));
        lemma_mul_associative(x, s, e);
        lemma_mul_commutative(x, s);
        lemma_mul_associative(s, x, e);
    }
}

/// Adding `c` to the constant coefficient adds `c` to every value.
proof fn lemma_eval_bump(r: Seq<u8>, c: u8, x: u8)
    requires
        r.len() >= 1,
    ensures
        poly_eval(r.update(0, gf_add(r[0], c)), x) == gf_add(poly_eval(r, x), c),
{
    let r2 = r.update(0, gf_add(r[0], c));
    assert(r2.drop_first() =~= r.drop_first());
    let a = r[0];
    let e = gf_mul(x, poly_eval(r.drop_first(), x));
    assert((a ^ c) ^ e == (a ^ e) ^ c) by (bit_vector);
}

/// `a * c + x * ((x + a) * e + c) = (x + a) * (c + x * e)`.
proof fn lemma_linear_step(c: u8, x: u8, a: u8, e: u8)
    ensures
        gf_add(gf_mul(a, c), gf_mul(x, gf_add(gf_mul(gf_add(x, a), e), c))) == gf_mul(
            gf_add(x, a),
            gf_add(c, gf_mul(x, e)),
        ),
{
    let xa = gf_add(x, a);
    let ac = gf_mul(a, c);
    let xc = gf_mul(x, c);
    let xxae = gf_mul(x, gf_mul(xa, e));
    lemma_mul_distributive(x, gf_mul(xa, e), c);
    lemma_mul_distributive(xa, c, gf_mul(x, e));
    lemma_mul_distributive_left(x, a, c);
    lemma_mul_associative(xa, x, e);
    lemma_mul_commutative(xa, x);
    lemma_mul_associative(x, xa, e);
    assert(gf_mul(xa, gf_mul(x, e)) == xxae);
    assert(ac ^ (xxae ^ xc) == (xc ^ ac) ^ xxae) by (bit_vector);
}

/// The value of `(X + a) * p` at `x` is `(x + a)` times the value of `p`.
pub proof fn lemma_times_linear(p: Seq<u8>, a: u8, x: u8)
    ensures
        poly_times_linear(p, a).len() == p.len() + 1,
        poly_eval(poly_times_linear(p, a), x) == gf_mul(gf_add(x, a), poly_eval(p, x)),
    decreases p.len(),
{
    let whole = poly_times_linear(p, a);
    if p.len() == 0 {
        assert(whole.drop_first().len() == 0);
        assert(poly_eval(whole.drop_first(), x) == 0);
        lemma_mul_zero(x);
        lemma_mul_zero(gf_add(x, a));
        lemma_add_zero(0);
    } else {
        let rest = p.drop_first();
        lemma_times_linear(rest, a, x);
        let r = poly_times_linear(rest, a);
        let r2 = r.update(0, gf_add(r[0], p[0]));
        assert(whole.drop_first() =~= r2);
        assert(whole[0] == gf_mul(a, p[0]));
        lemma_eval_bump(r, p[0], x);
        lemma_linear_step(p[0], x, a, poly_eval(rest, x));
    }
}

/// Coefficients of the product of `(X + xs[m]) / (xs[j] + xs[m])` over the
/// `m < n` other than `j`: the polynomial that is one at `xs[j]` and zero
/// at the other points.
pub open spec fn basis(xs: Seq<u8>, j: int, n: nat) -> Seq<u8>
    decreases n,
{
    if n == 0 {
        seq![1u8]
    } else if n - 1 == j {
        basis(xs, j, (n - 1) as nat)
    } else {
        poly_scale(
            poly_times_linear(basis(xs, j, (n - 1) as nat), xs[n - 1]),
            gf_inv(gf_add(xs[j], xs[n - 1])),
        )
    }
}

/// Value at `x` of the product of `(x + xs[m]) / (xs[j] + xs[m])` over the
/// `m < n` other than `j`.
pub open spec fn basis_val(xs: Seq<u8>, j: int, n: nat, x: u8) -> u8
    decreases n,
{
    if n == 0 {
        1
    } else if n - 1 == j {
        basis_val(xs, j, (n - 1) as nat, x)
    } else {
        gf_mul(
            basis_val(xs, j, (n - 1) as nat, x),
            gf_mul(gf_add(x, xs[n - 1]), gf_inv(gf_add(xs[j], xs[n - 1]))),
        )
    }
}

/// The values at `x` of the `k` basis polynomials of the first `k` points.
pub open spec fn basis_vals(xs: Seq<u8>, k: nat, x: u8) -> Seq<u8> {
    Seq::new(k, |j: int| basis_val(xs, j, k, x))
}

/// The basis polynomial of `xs[j]` has as many coefficients as there are
/// points, and its values are the products that `basis_val` gives.
pub proof fn lemma_basis_eval(xs: Seq<u8>, j: int, n: nat, x: u8)
    ensures
        basis(xs, j, n).len() == if 0 <= j < n {
            n
        } else {
            n + 1
        },
        poly_eval(basis(xs, j, n), x) == basis_val(xs, j, n, x),
    decreases n,
{
    if n == 0 {
        let b = basis(xs, j, 0);
        assert(b.drop_first().len() == 0);
        assert(poly_eval(b.drop_first(), x) == 0);
        lemma_mul_zero(x);
        lemma_add_zero(1);
    } else {
        lemma_basis_eval(xs, j, (n - 1) as nat, x);
        if n - 1 != j {
            let b = basis(xs, j, (n - 1) as nat);
            let s = gf_inv(gf_add(xs[j], xs[n - 1]));
            let f = gf_add(x, xs[n - 1]);
            lemma_times_linear(b, xs[n - 1], x);
            lemma_eval_scale(poly_times_linear(b, xs[n - 1]), s, x);
            let v = poly_eval(b, x);
            lemma_mul_commutative(s, gf_mul(f, v));
            lemma_mul_commutative(f, v);
            lemma_mul_associative(v, f, s);
        }
    }
}

/// At the point `xs[i]` the basis polynomial of `xs[j]` is one if `i` is
/// `j`, and zero once the factor of `xs[i]` has been taken in.
pub proof fn lemma_basis_at_point(xs: Seq<u8>, j: int, n: nat, i: int, k: nat)
    requires
        distinct(xs, k),
        0 <= i < k,
        0 <= j < k,
        n <= k,
    ensures
        i == j ==> basis_val(xs, j, n, xs[i]) == 1,
        i != j && i < n ==> basis_val(xs, j, n, xs[i]) == 0,
    decreases n,
{
    if n > 0 {
        let m = n - 1;
        lemma_basis_at_point(xs, j, m as nat, i, k);
        if m != j {
            let prev = basis_val(xs, j, m as nat, xs[i]);
            let d = gf_add(xs[j], xs[m]);
            let f = gf_add(xs[i], xs[m]);
            lemma_add_self(xs[j], xs[m]);
            if m < j {
                assert(xs[m] != xs[j]);
            } else {
                assert(xs[j] != xs[m]);
            }
            lemma_inverse(d);
            lemma_mul_one(1);
            lemma_mul_zero(gf_inv(d));
            lemma_mul_zero(gf_mul(f, gf_inv(d)));
            lemma_mul_zero(prev);
            lemma_add_self(xs[i], xs[m]);
        }
    }
}

/// The weight of share `j` among the first `n`, for interpolation at zero:
/// the product of `xs[m] / (xs[m] - xs[j])` over the `m < n` other than `j`.
pub open spec fn lagrange_weight(xs: Seq<u8>, j: int, n: nat) -> u8
    decreases n,
{
    if n == 0 {
        1
    } else if n - 1 == j {
        lagrange_weight(xs, j, (n - 1) as nat)
    } else {
        gf_mul(
            lagrange_weight(xs, j, (n - 1) as nat),
            gf_div(xs[n - 1], gf_add(xs[n - 1], xs[j])),
        )
    }
}

/// The `k` weights of the first `k` points.
pub open spec fn lagrange_weights(xs: Seq<u8>, k: nat) -> Seq<u8> {
    Seq::new(k, |j: int| lagrange_weight(xs, j, k))
}

/// The weight is the value of the basis polynomial at zero.
pub proof fn lemma_weight_is_basis_at_zero(xs: Seq<u8>, j: int, n: nat)
    ensures
        basis_val(xs, j, n, 0) == lagrange_weight(xs, j, n),
    decreases n,
{
    if n > 0 {
        lemma_weight_is_basis_at_zero(xs, j, (n - 1) as nat);
        lemma_add_zero(xs[n - 1]);
        lemma_add_commutative(xs[j], xs[n - 1]);
    }
}

/// Sum of the first `n` terms `ys[j] * basis_j` of the interpolating
/// polynomial of the `k` points `(xs[j], ys[j])`.
pub open spec fn interpolation_partial(xs: Seq<u8>, ys: Seq<u8>, k: nat, n: nat) -> Seq<u8>
    decreases n,
{
    if n == 0 {
        zero_vec(k)
    } else {
        poly_add(
            interpolation_partial(xs, ys, k, (n - 1) as nat),
            poly_scale(basis(xs, n - 1, k), ys[n - 1]),
        )
    }
}

/// Coefficients of the polynomial with `k` coefficients that takes the value
/// `ys[j]` at `xs[j]` for each `j < k`.
pub open spec fn interpolation(xs: Seq<u8>, ys: Seq<u8>, k: nat) -> Seq<u8> {
    interpolation_partial(xs, ys, k, k)
}

/// The value of the interpolating polynomial at `x` is the sum of the
/// `ys[j]` times the values of the basis polynomials at `x`.
proof fn lemma_interpolation_eval(xs: Seq<u8>, ys: Seq<u8>, k: nat, n: nat, x: u8)
    requires
        n <= k,
    ensures
        interpolation_partial(xs, ys, k, n).len() == k,
        poly_eval(interpolation_partial(xs, ys, k, n), x) == dot_prefix(
            ys,
            basis_vals(xs, k, x),
            n,
        ),
    decreases n,
{
    if n == 0 {
        lemma_eval_zero(k, x);
    } else {
        let m = (n - 1) as nat;
        lemma_interpolation_eval(xs, ys, k, m, x);
        let b = basis(xs, m as int, k);
        lemma_basis_eval(xs, m as int, k, x);
        lemma_eval_scale(b, ys[m as int], x);
        lemma_eval_add(interpolation_partial(xs, ys, k, m), poly_scale(b, ys[m as int]), x);
    }
}

/// The interpolating polynomial has `k` coefficients and takes the value
/// `ys[i]` at `xs[i]`.
pub proof fn lemma_interpolation_hits(xs: Seq<u8>, ys: Seq<u8>, k: nat, i: int)
    requires
        distinct(xs, k),
        0 <= i < k,
    ensures
        interpolation(xs, ys, k).len() == k,
        poly_eval(interpolation(xs, ys, k), xs[i]) == ys[i],
{
    lemma_interpolation_eval(xs, ys, k, k, xs[i]);
    let vals = basis_vals(xs, k, xs[i]);
    assert forall|j: int| 0 <= j < k implies vals[j] == unit_vec(k, i)[j] by {
        lemma_basis_at_point(xs, j, k, i, k);
    }
    lemma_dot_congruent(ys, ys, vals, unit_vec(k, i), k);
    lemma_dot_unit_right(ys, k, i, k);
}

/// Two polynomials with `k` coefficients that agree at `k` different points
/// are the same polynomial.
pub proof fn lemma_poly_unique(p: Seq<u8>, q: Seq<u8>, xs: Seq<u8>, k: nat)
    requires
        p.len() == k,
        q.len() == k,
        distinct(xs, k),
        forall|i: int| 0 <= i < k ==> poly_eval(p, #[trigger] xs[i]) == poly_eval(q, xs[i]),
    ensures
        p == q,
{
    let d = poly_add(p, q);
    assert forall|i: int| 0 <= i < k implies poly_eval(d, #[trigger] xs[i]) == 0 by {
        lemma_eval_add(p, q, xs[i]);
        lemma_add_self(poly_eval(p, xs[i]), poly_eval(q, xs[i]));
    }
    lemma_roots_force_zero(d, xs, k);
    assert forall|t: int| 0 <= t < k implies p[t] == q[t] by {
        assert(d[t] == gf_add(p[t], q[t]));
        lemma_add_self(p[t], q[t]);
    }
    assert(p =~= q);
}

/// Interpolation gives back the polynomial that the values came from.
pub proof fn lemma_interpolation_recovers(p: Seq<u8>, xs: Seq<u8>, ys: Seq<u8>, k: nat)
    requires
        p.len() == k,
        distinct(xs, k),
        forall|i: int| 0 <= i < k ==> ys[i] == poly_eval(p, #[trigger] xs[i]),
    ensures
        interpolation(xs, ys, k) == p,
{
    let l = interpolation(xs, ys, k);
    lemma_interpolation_eval(xs, ys, k, k, 0);
    assert forall|i: int| 0 <= i < k implies poly_eval(l, #[trigger] xs[i]) == poly_eval(
        p,
        xs[i],
    ) by {
        lemma_interpolation_hits(xs, ys, k, i);
    }
    lemma_poly_unique(l, p, xs, k);
}

/// The weighted sum of the values is the constant coefficient of the
/// interpolating polynomial.
pub proof fn lemma_weights_give_constant(xs: Seq<u8>, ys: Seq<u8>, k: nat)
    requires
        k >= 1,
    ensures
        interpolation(xs, ys, k).len() == k,
        dot_prefix(ys, lagrange_weights(xs, k), k) == interpolation(xs, ys, k)[0],
{
    let l = interpolation(xs, ys, k);
    lemma_interpolation_eval(xs, ys, k, k, 0);
    assert forall|j: int| 0 <= j < k implies basis_vals(xs, k, 0)[j] == lagrange_weights(
        xs,
        k,
    )[j] by {
        lemma_weight_is_basis_at_zero(xs, j, k);
    }
    lemma_dot_congruent(ys, ys, basis_vals(xs, k, 0), lagrange_weights(xs, k), k);
    lemma_mul_zero(poly_eval(l.drop_first(), 0));
    lemma_add_zero(l[0]);
}

/// A matrix that undoes the Vandermonde matrix of the points turns values
/// into the coefficients of the polynomial that takes them.
pub proof fn lemma_decoder_interpolates(d: Seq<Seq<u8>>, xs: Seq<u8>, ys: Seq<u8>, k: nat)
    requires
        distinct(xs, k),
        ys.len() == k,
        undoes(d, vandermonde(xs, k)),
    ensures
        mat_vec(d, ys) == interpolation(xs, ys, k),
{
    let c = interpolation(xs, ys, k);
    let v = vandermonde(xs, k);
    lemma_interpolation_eval(xs, ys, k, k, 0);
    assert(mat_vec(v, c) =~= ys) by {
        assert forall|i: int| 0 <= i < k implies mat_vec(v, c)[i] == ys[i] by {
            lemma_vandermonde_apply(xs, k, c, i);
            lemma_interpolation_hits(xs, ys, k, i);
        }
    }
    assert(mat_vec(d, mat_vec(v, c)) == c);
}

/// One step of Horner's form, read from coefficient `j` upwards.
pub proof fn lemma_eval_suffix(c: Seq<u8>, x: u8, j: int)
    requires
        0 <= j < c.len(),
    ensures
        poly_eval(c.subrange(j, c.len() as int), x) == gf_add(
            c[j],
            gf_mul(x, poly_eval(c.subrange(j + 1, c.len() as int), x)),
        ),
{
    let s = c.subrange(j, c.len() as int);
    assert(s.drop_first() =~= c.subrange(j + 1, c.len() as int));
}

/// Value at `x` of the polynomial with the given coefficients.
pub fn evaluate(coeffs: &[u8], x: u8) -> (r: u8)
    ensures
        r == poly_eval(coeffs@, x),
{
    let n = coeffs.len();
    let mut acc: u8 = 0;
    let mut j: usize = n;
    assert(coeffs@.subrange(n as int, n as int).len() == 0);
    while j > 0
        invariant
            j <= n,
            n == coeffs@.len(),
            acc == poly_eval(coeffs@.subrange(j as int, n as int), x),
        decreases j,
    {
        j -= 1;
        proof {
            lemma_eval_suffix(coeffs@, x, j as int);
        }
        acc = crate::field::add(coeffs[j], crate::field::mul(x, acc));
    }
    assert(coeffs@.subrange(0, n as int) =~= coeffs@);
    acc
}

/// Byte `i` of each of the first `k` bodies.
pub open spec fn values_at(bodies: Seq<Seq<u8>>, k: nat, i: int) -> Seq<u8> {
    Seq::new(k, |m: int| bodies[m][i])
}

/// The first `k` points of `xs` can serve as identifiers of `k` shares: none
/// is zero and no two are the same.
pub open spec fn usable_points(xs: Seq<u8>, k: nat) -> bool {
    &&& k <= xs.len()
    &&& forall|m: int| 0 <= m < k ==> xs[m] != 0
    &&& distinct(xs, k)
}

/// Whether the first `k` points of `xs` can serve as identifiers.
pub fn check_points(xs: &Vec<u8>, k: usize) -> (b: bool)
    ensures
        b == usable_points(xs@, k as nat),
{
    if xs.len() < k {
        return false;
    }
    let mut b: usize = 0;
    while b < k
        invariant
            b <= k,
            k <= xs@.len(),
            forall|m: int| 0 <= m < b ==> xs@[m] != 0,
            forall|i: int, j: int| 0 <= i < j < b ==> xs@[i] != xs@[j],
        decreases k - b,
    {
        if xs[b] == 0 {
            return false;
        }
        let mut a: usize = 0;
        while a < b
            invariant
                a <= b,
                b < k,
                k <= xs@.len(),
                forall|i: int| 0 <= i < a ==> xs@[i] != xs@[b as int],
            decreases b - a,
        {
            if xs[a] == xs[b] {
                return false;
            }
            a += 1;
        }
        b += 1;
    }
    true
}

} // verus!
