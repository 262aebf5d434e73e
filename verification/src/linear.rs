//! Vectors and square matrices over GF(2^8): dot products, the action of a
//! matrix on a vector, and what it means for a matrix to be invertible.

use vstd::prelude::*;
use crate::field::{
    gf_add,
    gf_mul,
    lemma_add_zero,
    lemma_add_self,
    lemma_mul_zero,
    lemma_mul_one,
    lemma_mul_commutative,
    lemma_mul_associative,
    lemma_mul_distributive_left,
    lemma_no_zero_divisors,
};

verus! {

/// Sum of the products `a[c] * b[c]` over `c < n`.
pub open spec fn dot_prefix(a: Seq<u8>, b: Seq<u8>, n: nat) -> u8
    decreases n,
{
    if n == 0 {
        0
    } else {
        gf_add(dot_prefix(a, b, (n - 1) as nat), gf_mul(a[n - 1], b[n - 1]))
    }
}

/// Dot product of two vectors of the same length.
pub open spec fn dot(a: Seq<u8>, b: Seq<u8>) -> u8 {
    dot_prefix(a, b, a.len())
}

/// `m` has `rows` rows of `cols` entries each.
pub open spec fn is_matrix(m: Seq<Seq<u8>>, rows: nat, cols: nat) -> bool {
    &&& m.len() == rows
    &&& forall|r: int| 0 <= r < rows ==> (#[trigger] m[r]).len() == cols
}

/// The rows of a matrix held as a vector of vectors.
pub open spec fn rows_of(m: Vec<Vec<u8>>) -> Seq<Seq<u8>> {
    Seq::new(m@.len(), |r: int| m@[r]@)
}

/// The vector `m * v`.
pub open spec fn mat_vec(m: Seq<Seq<u8>>, v: Seq<u8>) -> Seq<u8> {
    Seq::new(m.len(), |r: int| dot(m[r], v))
}

/// The vector of length `n` that is one at `c` and zero elsewhere.
pub open spec fn unit_vec(n: nat, c: int) -> Seq<u8> {
    Seq::new(n, |i: int| if i == c { 1u8 } else { 0u8 })
}

/// The vector of `n` zeros.
pub open spec fn zero_vec(n: nat) -> Seq<u8> {
    Seq::new(n, |i: int| 0u8)
}

/// The identity matrix of size `n`.
pub open spec fn identity(n: nat) -> Seq<Seq<u8>> {
    Seq::new(n, |r: int| unit_vec(n, r))
}

/// Column `c` of a matrix.
pub open spec fn column(m: Seq<Seq<u8>>, c: int) -> Seq<u8> {
    Seq::new(m.len(), |r: int| m[r][c])
}

/// Product of two square matrices of the same size.
pub open spec fn mat_mul(a: Seq<Seq<u8>>, b: Seq<Seq<u8>>) -> Seq<Seq<u8>> {
    Seq::new(a.len(), |r: int| Seq::new(a.len(), |c: int| dot(a[r], column(b, c))))
}

/// `d * (m * v) = v` for every vector `v`: `d` undoes `m`.
pub open spec fn undoes(d: Seq<Seq<u8>>, m: Seq<Seq<u8>>) -> bool {
    forall|v: Seq<u8>| v.len() == m.len() ==> #[trigger] mat_vec(d, mat_vec(m, v)) == v
}

/// `v` is a vector other than zero that `m` sends to zero.
pub open spec fn is_null_vector(m: Seq<Seq<u8>>, v: Seq<u8>) -> bool {
    &&& v.len() == m.len()
    &&& v != zero_vec(m.len())
    &&& mat_vec(m, v) == zero_vec(m.len())
}

/// A square matrix is singular when it sends some vector other than zero to
/// zero.
pub open spec fn singular(m: Seq<Seq<u8>>) -> bool {
    exists|v: Seq<u8>| is_null_vector(m, v)
}

/// A sum of two sums, regrouped.
proof fn lemma_add_swap(p: u8, q: u8, r: u8, s: u8)
    ensures
        (p ^ q) ^ (r ^ s) == (p ^ r) ^ (q ^ s),
{
    assert((p ^ q) ^ (r ^ s) == (p ^ r) ^ (q ^ s)) by (bit_vector);
}

/// Vectors that agree below `n` have the same dot products below `n`.
pub proof fn lemma_dot_congruent(a: Seq<u8>, a2: Seq<u8>, b: Seq<u8>, b2: Seq<u8>, n: nat)
    requires
        forall|c: int| 0 <= c < n ==> a[c] == a2[c] && b[c] == b2[c],
    ensures
        dot_prefix(a, b, n) == dot_prefix(a2, b2, n),
    decreases n,
{
    if n > 0 {
        lemma_dot_congruent(a, a2, b, b2, (n - 1) as nat);
    }
}

/// Scaling a vector scales its dot products.
pub proof fn lemma_dot_scaled(a: Seq<u8>, a2: Seq<u8>, b: Seq<u8>, s: u8, n: nat)
    requires
        forall|c: int| 0 <= c < n ==> a2[c] == gf_mul(a[c], s),
    ensures
        dot_prefix(a2, b, n) == gf_mul(dot_prefix(a, b, n), s),
    decreases n,
{
    if n == 0 {
        lemma_mul_zero(s);
    } else {
        let m = (n - 1) as nat;
        lemma_dot_scaled(a, a2, b, s, m);
        let x = a[n - 1];
        let y = b[n - 1];
        lemma_mul_associative(x, s, y);
        lemma_mul_commutative(s, y);
        lemma_mul_associative(x, y, s);
        lemma_mul_distributive_left(dot_prefix(a, b, m), gf_mul(x, y), s);
    }
}

/// The dot products of `a1 + coeff * a2` are those of `a1` plus `coeff`
/// times those of `a2`.
pub proof fn lemma_dot_combined(
    a: Seq<u8>,
    a1: Seq<u8>,
    a2: Seq<u8>,
    b: Seq<u8>,
    coeff: u8,
    n: nat,
)
    requires
        forall|c: int| 0 <= c < n ==> a[c] == gf_add(a1[c], gf_mul(a2[c], coeff)),
    ensures
        dot_prefix(a, b, n) == gf_add(dot_prefix(a1, b, n), gf_mul(dot_prefix(a2, b, n), coeff)),
    decreases n,
{
    if n == 0 {
        lemma_mul_zero(coeff);
        lemma_add_zero(0);
    } else {
        let m = (n - 1) as nat;
        lemma_dot_combined(a, a1, a2, b, coeff, m);
        let x1 = a1[n - 1];
        let x2 = a2[n - 1];
        let y = b[n - 1];
        lemma_mul_distributive_left(x1, gf_mul(x2, coeff), y);
        lemma_mul_associative(x2, coeff, y);
        lemma_mul_commutative(coeff, y);
        lemma_mul_associative(x2, y, coeff);
        lemma_mul_distributive_left(dot_prefix(a2, b, m), gf_mul(x2, y), coeff);
        lemma_add_swap(
            dot_prefix(a1, b, m),
            gf_mul(dot_prefix(a2, b, m), coeff),
            gf_mul(x1, y),
            gf_mul(gf_mul(x2, y), coeff),
        );
    }
}

/// The dot product with a unit vector picks one entry.
pub proof fn lemma_dot_unit_right(a: Seq<u8>, n: nat, c: int, m: nat)
    requires
        m <= n,
    ensures
        dot_prefix(a, unit_vec(n, c), m) == if 0 <= c < m {
            a[c]
        } else {
            0
        },
    decreases m,
{
    if m > 0 {
        lemma_dot_unit_right(a, n, c, (m - 1) as nat);
        lemma_mul_zero(a[m - 1]);
        lemma_mul_one(a[m - 1]);
        lemma_add_zero(a[m - 1]);
        lemma_add_zero(a[c]);
        lemma_add_zero(0);
    }
}

/// The dot product of a unit vector with `v` picks one entry of `v`.
pub proof fn lemma_dot_unit_left(n: nat, r: int, v: Seq<u8>, m: nat)
    requires
        m <= n,
    ensures
        dot_prefix(unit_vec(n, r), v, m) == if 0 <= r < m {
            v[r]
        } else {
            0
        },
    decreases m,
{
    if m > 0 {
        lemma_dot_unit_left(n, r, v, (m - 1) as nat);
        lemma_mul_zero(v[m - 1]);
        lemma_mul_one(v[m - 1]);
        lemma_add_zero(v[m - 1]);
        lemma_add_zero(v[r]);
        lemma_add_zero(0);
    }
}

/// The dot product with the zero vector is zero.
pub proof fn lemma_dot_zero_right(a: Seq<u8>, n: nat, m: nat)
    requires
        m <= n,
    ensures
        dot_prefix(a, zero_vec(n), m) == 0,
    decreases m,
{
    if m > 0 {
        lemma_dot_zero_right(a, n, (m - 1) as nat);
        lemma_mul_zero(a[m - 1]);
        lemma_add_zero(0);
    }
}

/// A matrix that undoes `m` has `m` as its right factor in a product that
/// is the identity.
pub proof fn lemma_undoes_gives_product(d: Seq<Seq<u8>>, m: Seq<Seq<u8>>, n: nat)
    requires
        is_matrix(d, n, n),
        is_matrix(m, n, n),
        undoes(d, m),
    ensures
        mat_mul(d, m) == identity(n),
{
    assert forall|r: int, c: int| 0 <= r < n && 0 <= c < n implies #[trigger] mat_mul(d, m)[r][c]
        == identity(n)[r][c] by {
        let e = unit_vec(n, c);
        let w = mat_vec(m, e);
        assert(w =~= column(m, c)) by {
            assert forall|t: int| 0 <= t < n implies w[t] == column(m, c)[t] by {
                lemma_dot_unit_right(m[t], n, c, n);
            }
        }
        assert(mat_vec(d, w) == e);
        assert(mat_vec(d, w)[r] == dot(d[r], w));
    }
    assert(mat_mul(d, m) =~~= identity(n));
}

/// A matrix that some matrix undoes is not singular.
pub proof fn lemma_undoes_not_singular(d: Seq<Seq<u8>>, m: Seq<Seq<u8>>, n: nat)
    requires
        is_matrix(d, n, n),
        is_matrix(m, n, n),
        undoes(d, m),
    ensures
        !singular(m),
{
    assert forall|v: Seq<u8>| is_null_vector(m, v) implies false by {
        let w = mat_vec(m, v);
        assert(mat_vec(d, w) == v);
        assert(v =~= zero_vec(n)) by {
            assert forall|r: int| 0 <= r < n implies v[r] == 0 by {
                assert(mat_vec(d, w)[r] == dot(d[r], w));
                lemma_dot_zero_right(d[r], n, n);
            }
        }
    }
}

/// One row of the elimination: applied to `m * v`, the row of the
/// accumulated matrix gives what the row of the reduced matrix gives on `v`.
pub open spec fn row_tracks(res_row: Seq<u8>, tmp_row: Seq<u8>, m: Seq<Seq<u8>>) -> bool {
    forall|v: Seq<u8>|
        v.len() == m.len() ==> dot(res_row, mat_vec(m, v)) == #[trigger] dot(tmp_row, v)
}

/// Every vector that `t` sends to zero, `m` sends to zero too.
pub open spec fn null_preserved(t: Seq<Seq<u8>>, m: Seq<Seq<u8>>) -> bool {
    forall|v: Seq<u8>|
        v.len() == m.len() && #[trigger] mat_vec(t, v) == zero_vec(m.len()) ==> mat_vec(m, v)
            == zero_vec(m.len())
}

/// The columns of `t` before column `i` are those of the identity.
pub open spec fn reduced_before(t: Seq<Seq<u8>>, n: nat, i: int) -> bool {
    forall|r: int, c: int|
        0 <= r < n && 0 <= c < i ==> #[trigger] t[r][c] == if r == c {
            1u8
        } else {
            0u8
        }
}

/// At the start the accumulated matrix is the identity and the reduced
/// matrix is `m` itself.
pub proof fn lemma_tracks_start(m: Seq<Seq<u8>>, n: nat, r: int)
    requires
        is_matrix(m, n, n),
        0 <= r < n,
    ensures
        row_tracks(unit_vec(n, r), m[r], m),
{
    assert forall|v: Seq<u8>| v.len() == m.len() implies dot(unit_vec(n, r), mat_vec(m, v))
        == #[trigger] dot(m[r], v) by {
        lemma_dot_unit_left(n, r, mat_vec(m, v), n);
    }
}

/// Scaling a row of both matrices keeps the row on track.
pub proof fn lemma_tracks_scaled(
    res_row: Seq<u8>,
    tmp_row: Seq<u8>,
    res2: Seq<u8>,
    tmp2: Seq<u8>,
    m: Seq<Seq<u8>>,
    n: nat,
    s: u8,
)
    requires
        m.len() == n,
        res_row.len() == n,
        tmp_row.len() == n,
        res2.len() == n,
        tmp2.len() == n,
        row_tracks(res_row, tmp_row, m),
        forall|c: int| 0 <= c < n ==> res2[c] == gf_mul(res_row[c], s),
        forall|c: int| 0 <= c < n ==> tmp2[c] == gf_mul(tmp_row[c], s),
    ensures
        row_tracks(res2, tmp2, m),
{
    assert forall|v: Seq<u8>| v.len() == m.len() implies dot(res2, mat_vec(m, v))
        == #[trigger] dot(tmp2, v) by {
        let w = mat_vec(m, v);
        assert(dot(res_row, w) == dot(tmp_row, v));
        lemma_dot_scaled(res_row, res2, w, s, n);
        lemma_dot_scaled(tmp_row, tmp2, v, s, n);
    }
}

/// Adding a multiple of one row to another in both matrices keeps the row
/// on track.
pub proof fn lemma_tracks_combined(
    res_j: Seq<u8>,
    tmp_j: Seq<u8>,
    res_i: Seq<u8>,
    tmp_i: Seq<u8>,
    res2: Seq<u8>,
    tmp2: Seq<u8>,
    m: Seq<Seq<u8>>,
    n: nat,
    coeff: u8,
)
    requires
        m.len() == n,
        res_j.len() == n,
        tmp_j.len() == n,
        res_i.len() == n,
        tmp_i.len() == n,
        res2.len() == n,
        tmp2.len() == n,
        row_tracks(res_j, tmp_j, m),
        row_tracks(res_i, tmp_i, m),
        forall|c: int| 0 <= c < n ==> res2[c] == gf_add(res_j[c], gf_mul(res_i[c], coeff)),
        forall|c: int| 0 <= c < n ==> tmp2[c] == gf_add(tmp_j[c], gf_mul(tmp_i[c], coeff)),
    ensures
        row_tracks(res2, tmp2, m),
{
    assert forall|v: Seq<u8>| v.len() == m.len() implies dot(res2, mat_vec(m, v))
        == #[trigger] dot(tmp2, v) by {
        let w = mat_vec(m, v);
        assert(dot(res_j, w) == dot(tmp_j, v));
        assert(dot(res_i, w) == dot(tmp_i, v));
        lemma_dot_combined(res2, res_j, res_i, w, coeff, n);
        lemma_dot_combined(tmp2, tmp_j, tmp_i, v, coeff, n);
    }
}

/// Once the reduced matrix is the identity, the accumulated matrix undoes
/// the matrix that the elimination started from.
pub proof fn lemma_tracks_finish(res: Seq<Seq<u8>>, tmp: Seq<Seq<u8>>, m: Seq<Seq<u8>>, n: nat)
    requires
        is_matrix(res, n, n),
        is_matrix(tmp, n, n),
        is_matrix(m, n, n),
        reduced_before(tmp, n, n as int),
        forall|r: int| 0 <= r < n ==> row_tracks(#[trigger] res[r], tmp[r], m),
    ensures
        undoes(res, m),
{
    assert forall|v: Seq<u8>| v.len() == m.len() implies #[trigger] mat_vec(res, mat_vec(m, v))
        == v by {
        let w = mat_vec(m, v);
        assert forall|r: int| 0 <= r < n implies mat_vec(res, w)[r] == v[r] by {
            assert(row_tracks(res[r], tmp[r], m));
            assert(dot(res[r], w) == dot(tmp[r], v));
            lemma_dot_unit_left(n, r, v, n);
            lemma_dot_congruent(tmp[r], unit_vec(n, r), v, v, n);
        }
        assert(mat_vec(res, w) =~= v);
    }
}

/// Scaling a row by a nonzero element sends no new vector to zero.
pub proof fn lemma_null_scaled(
    t: Seq<Seq<u8>>,
    t2: Seq<Seq<u8>>,
    m: Seq<Seq<u8>>,
    n: nat,
    i: int,
    s: u8,
)
    requires
        is_matrix(t, n, n),
        is_matrix(t2, n, n),
        m.len() == n,
        0 <= i < n,
        s != 0,
        null_preserved(t, m),
        forall|r: int| 0 <= r < n && r != i ==> #[trigger] t2[r] == t[r],
        forall|c: int| 0 <= c < n ==> t2[i][c] == gf_mul(t[i][c], s),
    ensures
        null_preserved(t2, m),
{
    assert forall|v: Seq<u8>| v.len() == m.len() && #[trigger] mat_vec(t2, v) == zero_vec(
        m.len(),
    ) implies mat_vec(m, v) == zero_vec(m.len()) by {
        assert forall|r: int| 0 <= r < n implies mat_vec(t, v)[r] == 0 by {
            assert(mat_vec(t2, v)[r] == zero_vec(n)[r]);
            if r == i {
                lemma_dot_scaled(t[i], t2[i], v, s, n);
                lemma_no_zero_divisors(dot(t[i], v), s);
            }
        }
        assert(mat_vec(t, v) =~= zero_vec(n));
    }
}

/// Adding a multiple of one row to another sends no new vector to zero.
pub proof fn lemma_null_combined(
    t: Seq<Seq<u8>>,
    t2: Seq<Seq<u8>>,
    m: Seq<Seq<u8>>,
    n: nat,
    i: int,
    j: int,
    coeff: u8,
)
    requires
        is_matrix(t, n, n),
        is_matrix(t2, n, n),
        m.len() == n,
        0 <= i < n,
        0 <= j < n,
        i != j,
        null_preserved(t, m),
        forall|r: int| 0 <= r < n && r != j ==> #[trigger] t2[r] == t[r],
        forall|c: int| 0 <= c < n ==> t2[j][c] == gf_add(t[j][c], gf_mul(t[i][c], coeff)),
    ensures
        null_preserved(t2, m),
{
    assert forall|v: Seq<u8>| v.len() == m.len() && #[trigger] mat_vec(t2, v) == zero_vec(
        m.len(),
    ) implies mat_vec(m, v) == zero_vec(m.len()) by {
        assert forall|r: int| 0 <= r < n implies mat_vec(t, v)[r] == 0 by {
            assert(mat_vec(t2, v)[r] == zero_vec(n)[r]);
            if r == j {
                assert(mat_vec(t2, v)[i] == zero_vec(n)[i]);
                assert(t2[i] == t[i]);
                lemma_dot_combined(t2[j], t[j], t[i], v, coeff, n);
                lemma_mul_zero(coeff);
                lemma_add_zero(dot(t[j], v));
            }
        }
        assert(mat_vec(t, v) =~= zero_vec(n));
    }
}

/// Swapping two rows sends no new vector to zero.
pub proof fn lemma_null_swapped(
    t: Seq<Seq<u8>>,
    t2: Seq<Seq<u8>>,
    m: Seq<Seq<u8>>,
    n: nat,
    i: int,
    j: int,
)
    requires
        is_matrix(t, n, n),
        is_matrix(t2, n, n),
        m.len() == n,
        0 <= i < n,
        0 <= j < n,
        null_preserved(t, m),
        forall|r: int| 0 <= r < n && r != i && r != j ==> #[trigger] t2[r] == t[r],
        t2[i] == t[j],
        t2[j] == t[i],
    ensures
        null_preserved(t2, m),
{
    assert forall|v: Seq<u8>| v.len() == m.len() && #[trigger] mat_vec(t2, v) == zero_vec(
        m.len(),
    ) implies mat_vec(m, v) == zero_vec(m.len()) by {
        assert forall|r: int| 0 <= r < n implies mat_vec(t, v)[r] == 0 by {
            assert(mat_vec(t2, v)[r] == zero_vec(n)[r]);
            assert(mat_vec(t2, v)[i] == zero_vec(n)[i]);
            assert(mat_vec(t2, v)[j] == zero_vec(n)[j]);
        }
        assert(mat_vec(t, v) =~= zero_vec(n));
    }
}

/// The vector that shows a stuck elimination to be singular: column `i` of
/// the reduced matrix above the diagonal, a one at `i`, zero below.
pub open spec fn stuck_vector(t: Seq<Seq<u8>>, n: nat, i: int) -> Seq<u8> {
    Seq::new(
        n,
        |c: int|
            if c < i {
                t[c][i]
            } else if c == i {
                1u8
            } else {
                0u8
            },
    )
}

/// The rows of a stuck elimination send the stuck vector to zero.
proof fn lemma_stuck_dot(t: Seq<Seq<u8>>, n: nat, i: int, r: int, k: nat)
    requires
        is_matrix(t, n, n),
        0 <= i < n,
        0 <= r < n,
        k <= n,
        reduced_before(t, n, i),
        forall|q: int| i <= q < n ==> #[trigger] t[q][i] == 0,
    ensures
        dot_prefix(t[r], stuck_vector(t, n, i), k) == if r < i && r < k <= i {
            t[r][i]
        } else {
            0
        },
    decreases k,
{
    if k > 0 {
        let v = stuck_vector(t, n, i);
        let c = k - 1;
        lemma_stuck_dot(t, n, i, r, c as nat);
        let x = t[r][c];
        lemma_mul_zero(x);
        lemma_mul_zero(v[c]);
        lemma_mul_one(x);
        lemma_mul_one(v[c]);
        lemma_add_zero(0);
        lemma_add_zero(t[r][i]);
        lemma_add_self(t[r][i], t[r][i]);
        if c < i {
            assert(t[r][c] == if r == c { 1u8 } else { 0u8 });
        }
    }
}

/// An elimination that finds no pivot in column `i` started from a singular
/// matrix.
pub proof fn lemma_stuck_singular(t: Seq<Seq<u8>>, m: Seq<Seq<u8>>, n: nat, i: int)
    requires
        is_matrix(t, n, n),
        is_matrix(m, n, n),
        0 <= i < n,
        reduced_before(t, n, i),
        forall|q: int| i <= q < n ==> #[trigger] t[q][i] == 0,
        null_preserved(t, m),
    ensures
        singular(m),
{
    let v = stuck_vector(t, n, i);
    assert forall|r: int| 0 <= r < n implies mat_vec(t, v)[r] == 0 by {
        lemma_stuck_dot(t, n, i, r, n);
    }
    assert(mat_vec(t, v) =~= zero_vec(n));
    assert(v[i] == 1);
    assert(zero_vec(n)[i] == 0);
    assert(is_null_vector(m, v));
}

/// What holds between the steps of the elimination that inverts `m`: `t` is
/// the matrix being reduced, `r` the matrix being accumulated, and the
/// columns of `t` before column `i` are done.
pub open spec fn elimination_state(
    t: Seq<Seq<u8>>,
    r: Seq<Seq<u8>>,
    m: Seq<Seq<u8>>,
    n: nat,
    i: int,
) -> bool {
    &&& is_matrix(t, n, n)
    &&& is_matrix(r, n, n)
    &&& is_matrix(m, n, n)
    &&& forall|q: int| 0 <= q < n ==> row_tracks(#[trigger] r[q], t[q], m)
    &&& reduced_before(t, n, i)
    &&& null_preserved(t, m)
}

/// The elimination starts in order.
pub proof fn lemma_elimination_start(m: Seq<Seq<u8>>, n: nat)
    requires
        is_matrix(m, n, n),
    ensures
        elimination_state(m, identity(n), m, n, 0),
{
    assert forall|q: int| 0 <= q < n implies row_tracks(#[trigger] identity(n)[q], m[q], m) by {
        lemma_tracks_start(m, n, q);
    }
}

/// Swapping two rows at or below row `i` in both matrices keeps the state.
pub proof fn lemma_elimination_swapped(
    t: Seq<Seq<u8>>,
    r: Seq<Seq<u8>>,
    t2: Seq<Seq<u8>>,
    r2: Seq<Seq<u8>>,
    m: Seq<Seq<u8>>,
    n: nat,
    i: int,
    p: int,
)
    requires
        elimination_state(t, r, m, n, i),
        0 <= i < p < n,
        t2 == t.update(i, t[p]).update(p, t[i]),
        r2 == r.update(i, r[p]).update(p, r[i]),
    ensures
        elimination_state(t2, r2, m, n, i),
{
    lemma_null_swapped(t, t2, m, n, i, p);
    assert forall|q: int| 0 <= q < n implies row_tracks(#[trigger] r2[q], t2[q], m) by {
        if q == i {
            assert(row_tracks(r[p], t[p], m));
        } else if q == p {
            assert(row_tracks(r[i], t[i], m));
        } else {
            assert(row_tracks(r[q], t[q], m));
        }
    }
    assert forall|q: int, c: int| 0 <= q < n && 0 <= c < i implies #[trigger] t2[q][c] == if q
        == c {
        1u8
    } else {
        0u8
    } by {
        assert(t[p][c] == 0);
        assert(t[i][c] == 0);
        assert(t[q][c] == if q == c { 1u8 } else { 0u8 });
    }
}

/// Scaling row `i` of both matrices by the inverse of the pivot keeps the
/// state and makes the pivot one.
pub proof fn lemma_elimination_scaled(
    t: Seq<Seq<u8>>,
    r: Seq<Seq<u8>>,
    t2: Seq<Seq<u8>>,
    r2: Seq<Seq<u8>>,
    m: Seq<Seq<u8>>,
    n: nat,
    i: int,
    s: u8,
)
    requires
        elimination_state(t, r, m, n, i),
        0 <= i < n,
        gf_mul(t[i][i], s) == 1,
        t2.len() == n,
        r2.len() == n,
        t2[i].len() == n,
        r2[i].len() == n,
        forall|q: int| 0 <= q < n && q != i ==> #[trigger] t2[q] == t[q],
        forall|q: int| 0 <= q < n && q != i ==> #[trigger] r2[q] == r[q],
        forall|c: int| 0 <= c < n ==> #[trigger] t2[i][c] == gf_mul(t[i][c], s),
        forall|c: int| 0 <= c < n ==> #[trigger] r2[i][c] == gf_mul(r[i][c], s),
    ensures
        elimination_state(t2, r2, m, n, i),
        t2[i][i] == 1,
{
    lemma_mul_zero(t[i][i]);
    assert(s != 0);
    lemma_mul_zero(s);
    assert(is_matrix(t2, n, n)) by {
        assert forall|q: int| 0 <= q < n implies (#[trigger] t2[q]).len() == n by {
            if q != i {
                assert(t2[q] == t[q]);
            }
        }
    }
    assert(is_matrix(r2, n, n)) by {
        assert forall|q: int| 0 <= q < n implies (#[trigger] r2[q]).len() == n by {
            if q != i {
                assert(r2[q] == r[q]);
            }
        }
    }
    lemma_null_scaled(t, t2, m, n, i, s);
    assert forall|q: int| 0 <= q < n implies row_tracks(#[trigger] r2[q], t2[q], m) by {
        assert(row_tracks(r[q], t[q], m));
        if q == i {
            lemma_tracks_scaled(r[i], t[i], r2[i], t2[i], m, n, s);
        } else {
            assert(t2[q] == t[q]);
            assert(r2[q] == r[q]);
        }
    }
    assert forall|q: int, c: int| 0 <= q < n && 0 <= c < i implies #[trigger] t2[q][c] == if q
        == c {
        1u8
    } else {
        0u8
    } by {
        assert(t[q][c] == if q == c { 1u8 } else { 0u8 });
        if q != i {
            assert(t2[q] == t[q]);
        }
    }
}

/// Adding `coeff` times row `i` to row `j` in both matrices, where `coeff`
/// is the entry of row `j` in column `i` and the pivot is one, keeps the
/// state and clears that entry.
pub proof fn lemma_elimination_combined(
    t: Seq<Seq<u8>>,
    r: Seq<Seq<u8>>,
    t2: Seq<Seq<u8>>,
    r2: Seq<Seq<u8>>,
    m: Seq<Seq<u8>>,
    n: nat,
    i: int,
    j: int,
    coeff: u8,
)
    requires
        elimination_state(t, r, m, n, i),
        0 <= i < n,
        0 <= j < n,
        i != j,
        t[i][i] == 1,
        coeff == t[j][i],
        t2.len() == n,
        r2.len() == n,
        t2[j].len() == n,
        r2[j].len() == n,
        forall|q: int| 0 <= q < n && q != j ==> #[trigger] t2[q] == t[q],
        forall|q: int| 0 <= q < n && q != j ==> #[trigger] r2[q] == r[q],
        forall|c: int|
            0 <= c < n ==> #[trigger] t2[j][c] == gf_add(t[j][c], gf_mul(t[i][c], coeff)),
        forall|c: int|
            0 <= c < n ==> #[trigger] r2[j][c] == gf_add(r[j][c], gf_mul(r[i][c], coeff)),
    ensures
        elimination_state(t2, r2, m, n, i),
        t2[j][i] == 0,
{
    assert(is_matrix(t2, n, n)) by {
        assert forall|q: int| 0 <= q < n implies (#[trigger] t2[q]).len() == n by {
            if q != j {
                assert(t2[q] == t[q]);
            }
        }
    }
    assert(is_matrix(r2, n, n)) by {
        assert forall|q: int| 0 <= q < n implies (#[trigger] r2[q]).len() == n by {
            if q != j {
                assert(r2[q] == r[q]);
            }
        }
    }
    lemma_null_combined(t, t2, m, n, i, j, coeff);
    assert forall|q: int| 0 <= q < n implies row_tracks(#[trigger] r2[q], t2[q], m) by {
        assert(row_tracks(r[q], t[q], m));
        if q == j {
            assert(row_tracks(r[i], t[i], m));
            lemma_tracks_combined(r[j], t[j], r[i], t[i], r2[j], t2[j], m, n, coeff);
        } else {
            assert(t2[q] == t[q]);
            assert(r2[q] == r[q]);
        }
    }
    lemma_mul_zero(coeff);
    lemma_mul_one(coeff);
    lemma_add_self(coeff, coeff);
    assert forall|q: int, c: int| 0 <= q < n && 0 <= c < i implies #[trigger] t2[q][c] == if q
        == c {
        1u8
    } else {
        0u8
    } by {
        assert(t[q][c] == if q == c { 1u8 } else { 0u8 });
        assert(t[i][c] == 0);
        lemma_add_zero(t[j][c]);
        if q != j {
            assert(t2[q] == t[q]);
        }
    }
}

/// Column `i` is done once the pivot is one and every other entry of the
/// column is zero.
pub proof fn lemma_elimination_advance(
    t: Seq<Seq<u8>>,
    r: Seq<Seq<u8>>,
    m: Seq<Seq<u8>>,
    n: nat,
    i: int,
)
    requires
        elimination_state(t, r, m, n, i),
        0 <= i < n,
        t[i][i] == 1,
        forall|q: int| 0 <= q < n && q != i ==> #[trigger] t[q][i] == 0,
    ensures
        elimination_state(t, r, m, n, i + 1),
{
    assert forall|q: int, c: int| 0 <= q < n && 0 <= c < i + 1 implies #[trigger] t[q][c] == if q
        == c {
        1u8
    } else {
        0u8
    } by {
        if c < i {
            assert(t[q][c] == if q == c { 1u8 } else { 0u8 });
        }
    }
}

} // verus!
