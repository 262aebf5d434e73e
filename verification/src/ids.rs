//! Information dispersal: Rabin's algorithm, and the inverse of a matrix over
//! GF(2^8) that its decoder needs.

use vstd::prelude::*;
use vstd::arithmetic::div_mod::{lemma_fundamental_div_mod, lemma_fundamental_div_mod_converse};
use vstd::arithmetic::mul::lemma_mul_is_commutative;
use crate::error::SharingError;
use crate::field::{gf_add, gf_mul, gf_pow};
use crate::poly::{
    check_points,
    distinct,
    interpolation,
    lemma_decoder_interpolates,
    lemma_eval_suffix,
    lemma_vandermonde_regular,
    poly_eval,
    powers,
    usable_points,
    values_at,
    vandermonde,
};
use crate::share::{collect_ids, RabinShare};
use crate::{valid_parameters, Sharing};
use crate::linear::{
    elimination_state,
    identity,
    is_matrix,
    lemma_elimination_advance,
    lemma_elimination_combined,
    lemma_elimination_scaled,
    lemma_elimination_start,
    lemma_elimination_swapped,
    lemma_stuck_singular,
    lemma_tracks_finish,
    lemma_undoes_gives_product,
    lemma_undoes_not_singular,
    dot_prefix,
    mat_mul,
    mat_vec,
    rows_of,
    singular,
    undoes,
    unit_vec,
};

verus! {

/// The identity matrix of the given size.
pub fn generate_identity(size: usize) -> (m: Vec<Vec<u8>>)
    ensures
        rows_of(m) == identity(size as nat),
{
    let mut m: Vec<Vec<u8>> = Vec::new();
    let mut i: usize = 0;
    while i < size
        invariant
            i <= size,
            m@.len() == i,
            forall|r: int| 0 <= r < i ==> (#[trigger] m@[r])@ == unit_vec(size as nat, r),
        decreases size - i,
    {
        let mut row: Vec<u8> = Vec::new();
        let mut j: usize = 0;
        while j < size
            invariant
                j <= size,
                i < size,
                row@.len() == j,
                forall|c: int|
                    0 <= c < j ==> #[trigger] row@[c] == if c == i {
                        1u8
                    } else {
                        0u8
                    },
            decreases size - j,
        {
            row.push(if i == j { 1 } else { 0 });
            j += 1;
        }
        assert(row@ =~= unit_vec(size as nat, i as int));
        m.push(row);
        i += 1;
    }
    assert(rows_of(m) =~= identity(size as nat));
    m
}

/// Two distinct entries of a slice, both mutable at once.
pub fn two_mut<T>(sl: &mut [T], i: usize, j: usize) -> (r: (&mut T, &mut T))
    requires
        i != j,
        i < old(sl)@.len(),
        j < old(sl)@.len(),
    ensures
        *r.0 == old(sl)@[i as int],
        *r.1 == old(sl)@[j as int],
        final(sl)@ == old(sl)@.update(i as int, *final(r.0)).update(j as int, *final(r.1)),
{
    let (smaller, lagger) = if i < j { (i, j) } else { (j, i) };
    let (smsl, lgsl) = sl.split_at_mut(lagger);
    if i == smaller {
        (&mut smsl[smaller], &mut lgsl[0])
    } else {
        (&mut lgsl[0], &mut smsl[smaller])
    }
}

/// Subtracts `coeff` times the row `normalized` from `row`, entry by entry.
pub fn mult_and_subtract(row: &mut [u8], normalized: &[u8], coeff: u8)
    requires
        old(row)@.len() <= normalized@.len(),
    ensures
        final(row)@.len() == old(row)@.len(),
        forall|c: int|
            0 <= c < old(row)@.len() ==> #[trigger] final(row)@[c] == gf_add(
                old(row)@[c],
                gf_mul(normalized@[c], coeff),
            ),
{
    let n = row.len();
    let mut i: usize = 0;
    while i < n
        invariant
            i <= n,
            row@.len() == n,
            n == old(row)@.len(),
            n <= normalized@.len(),
            forall|c: int|
                0 <= c < i ==> #[trigger] row@[c] == gf_add(
                    old(row)@[c],
                    gf_mul(normalized@[c], coeff),
                ),
            forall|c: int| i <= c < n ==> #[trigger] row@[c] == old(row)@[c],
        decreases n - i,
    {
        row[i] = crate::field::sub(row[i], crate::field::mul(normalized[i], coeff));
        i += 1;
    }
}

/// Multiplies a row of the matrix being reduced, and the same row of the
/// matrix being accumulated, by `element`.
pub fn normalize_row(tmp_row: &mut [u8], res_row: &mut [u8], element: u8)
    requires
        old(tmp_row)@.len() <= old(res_row)@.len(),
    ensures
        final(tmp_row)@.len() == old(tmp_row)@.len(),
        final(res_row)@.len() == old(res_row)@.len(),
        forall|c: int|
            0 <= c < old(tmp_row)@.len() ==> #[trigger] final(tmp_row)@[c] == gf_mul(
                old(tmp_row)@[c],
                element,
            ),
        forall|c: int|
            0 <= c < old(tmp_row)@.len() ==> #[trigger] final(res_row)@[c] == gf_mul(
                old(res_row)@[c],
                element,
            ),
        forall|c: int|
            old(tmp_row)@.len() <= c < old(res_row)@.len() ==> #[trigger] final(res_row)@[c]
                == old(res_row)@[c],
{
    let n = tmp_row.len();
    let mut i: usize = 0;
    while i < n
        invariant
            i <= n,
            tmp_row@.len() == n,
            n == old(tmp_row)@.len(),
            res_row@.len() == old(res_row)@.len(),
            n <= res_row@.len(),
            forall|c: int|
                0 <= c < i ==> #[trigger] tmp_row@[c] == gf_mul(old(tmp_row)@[c], element),
            forall|c: int|
                0 <= c < i ==> #[trigger] res_row@[c] == gf_mul(old(res_row)@[c], element),
            forall|c: int| i <= c < n ==> #[trigger] tmp_row@[c] == old(tmp_row)@[c],
            forall|c: int|
                i <= c < res_row@.len() ==> #[trigger] res_row@[c] == old(res_row)@[c],
        decreases n - i,
    {
        tmp_row[i] = crate::field::mul(tmp_row[i], element);
        res_row[i] = crate::field::mul(res_row[i], element);
        i += 1;
    }
}

/// A vector of `n` vectors of `n` entries each.
pub open spec fn is_square(v: Vec<Vec<u8>>, n: nat) -> bool {
    &&& v@.len() == n
    &&& forall|q: int| 0 <= q < n ==> (#[trigger] v@[q])@.len() == n
}

proof fn lemma_square_rows(v: Vec<Vec<u8>>, n: nat)
    ensures
        is_square(v, n) <==> is_matrix(rows_of(v), n, n),
{
    if is_matrix(rows_of(v), n, n) {
        assert forall|q: int| 0 <= q < n implies (#[trigger] v@[q])@.len() == n by {
            assert(rows_of(v)[q].len() == n);
        }
    }
}

/// Inverse of a square matrix over GF(2^8), by Gauss-Jordan elimination
/// carried out on the matrix and on the identity side by side. Where the
/// pivot is zero, a row below with a nonzero entry in the pivot's column is
/// swapped in. A singular matrix has no inverse.
pub fn inverse(matrix: Vec<Vec<u8>>) -> (r: Option<Vec<Vec<u8>>>)
    requires
        is_square(matrix, matrix@.len() as nat),
    ensures
        r is None <==> singular(rows_of(matrix)),
        r matches Some(d) ==> {
            &&& is_square(d, matrix@.len() as nat)
            &&& mat_mul(rows_of(d), rows_of(matrix)) == identity(matrix@.len() as nat)
            &&& undoes(rows_of(d), rows_of(matrix))
        },
{
    let size = matrix.len();
    let ghost m = rows_of(matrix);
    let ghost n = size as nat;
    let mut res = generate_identity(size);
    let mut tmp = matrix;
    proof {
        lemma_square_rows(tmp, n);
        lemma_elimination_start(m, n);
    }
    let mut i: usize = 0;
    while i < size
        invariant
            i <= size,
            n == size,
            m == rows_of(matrix),
            elimination_state(rows_of(tmp), rows_of(res), m, n, i as int),
        decreases size - i,
    {
        proof {
            lemma_square_rows(tmp, n);
            lemma_square_rows(res, n);
        }
        let mut p: usize = i;
        while p < size && tmp[p][i] == 0
            invariant
                i <= p <= size,
                i < size,
                n == size,
                is_square(tmp, n),
                forall|q: int| i <= q < p ==> #[trigger] rows_of(tmp)[q][i as int] == 0,
            decreases size - p,
        {
            p += 1;
        }
        if p == size {
            proof {
                assert forall|q: int| i <= q < n implies #[trigger] rows_of(tmp)[q][i as int]
                    == 0 by {}
                lemma_stuck_singular(rows_of(tmp), m, n, i as int);
            }
            return None;
        }
        if p != i {
            let ghost t0 = rows_of(tmp);
            let ghost r0 = rows_of(res);
            let (upper, lower) = two_mut(tmp.as_mut_slice(), i, p);
            core::mem::swap(upper, lower);
            let (upper, lower) = two_mut(res.as_mut_slice(), i, p);
            core::mem::swap(upper, lower);
            proof {
                assert(rows_of(tmp) =~= t0.update(i as int, t0[p as int]).update(
                    p as int,
                    t0[i as int],
                ));
                assert(rows_of(res) =~= r0.update(i as int, r0[p as int]).update(
                    p as int,
                    r0[i as int],
                ));
                lemma_elimination_swapped(
                    t0,
                    r0,
                    rows_of(tmp),
                    rows_of(res),
                    m,
                    n,
                    i as int,
                    p as int,
                );
                lemma_square_rows(tmp, n);
                lemma_square_rows(res, n);
            }
        }
        assert(rows_of(tmp)[i as int][i as int] != 0);
        let ghost t0 = rows_of(tmp);
        let ghost r0 = rows_of(res);
        let s = crate::field::inv(tmp[i][i]);
        normalize_row(tmp[i].as_mut_slice(), res[i].as_mut_slice(), s);
        proof {
            lemma_elimination_scaled(t0, r0, rows_of(tmp), rows_of(res), m, n, i as int, s);
        }
        let mut j: usize = 0;
        while j < size
            invariant
                j <= size,
                i < size,
                n == size,
                elimination_state(rows_of(tmp), rows_of(res), m, n, i as int),
                rows_of(tmp)[i as int][i as int] == 1,
                forall|q: int| 0 <= q < j && q != i ==> #[trigger] rows_of(tmp)[q][i as int] == 0,
            decreases size - j,
        {
            proof {
                lemma_square_rows(tmp, n);
                lemma_square_rows(res, n);
            }
            if j != i {
                let coeff = tmp[j][i];
                if coeff != 0 {
                    let ghost t1 = rows_of(tmp);
                    let ghost r1 = rows_of(res);
                    let (tmpi, tmpj) = two_mut(tmp.as_mut_slice(), i, j);
                    mult_and_subtract(tmpj.as_mut_slice(), tmpi.as_slice(), coeff);
                    let (resi, resj) = two_mut(res.as_mut_slice(), i, j);
                    mult_and_subtract(resj.as_mut_slice(), resi.as_slice(), coeff);
                    proof {
                        lemma_elimination_combined(
                            t1,
                            r1,
                            rows_of(tmp),
                            rows_of(res),
                            m,
                            n,
                            i as int,
                            j as int,
                            coeff,
                        );
                        assert forall|q: int| 0 <= q < j + 1 && q != i implies #[trigger] rows_of(
                            tmp,
                        )[q][i as int] == 0 by {
                            if q != j {
                                assert(rows_of(tmp)[q] == t1[q]);
                                assert(t1[q][i as int] == 0);
                            }
                        }
                    }
                }
            }
            j += 1;
        }
        proof {
            lemma_elimination_advance(rows_of(tmp), rows_of(res), m, n, i as int);
        }
        i += 1;
    }
    proof {
        lemma_tracks_finish(rows_of(res), rows_of(tmp), m, n);
        lemma_undoes_gives_product(rows_of(res), m, n);
        lemma_undoes_not_singular(rows_of(res), m, n);
        lemma_square_rows(res, n);
    }
    Some(res)
}

/// The inverse of the Vandermonde matrix of the first `size` of the given
/// points, which turns the values of a polynomial at these points into its
/// coefficients. There is one whenever the points are pairwise different.
pub fn generate_decoder(size: usize, values: Vec<u8>) -> (r: Option<Vec<Vec<u8>>>)
    requires
        size <= values@.len(),
    ensures
        r is None <==> singular(vandermonde(values@, size as nat)),
        distinct(values@, size as nat) ==> r is Some,
        r matches Some(d) ==> {
            &&& is_square(d, size as nat)
            &&& mat_mul(rows_of(d), vandermonde(values@, size as nat)) == identity(size as nat)
            &&& undoes(rows_of(d), vandermonde(values@, size as nat))
        },
{
    let mut matrix: Vec<Vec<u8>> = Vec::new();
    let mut i: usize = 0;
    while i < size
        invariant
            i <= size,
            size <= values@.len(),
            matrix@.len() == i,
            forall|r: int|
                0 <= r < i ==> (#[trigger] matrix@[r])@ == powers(values@[r], size as nat),
        decreases size - i,
    {
        let x = values[i];
        let mut row: Vec<u8> = Vec::new();
        let mut power: u8 = 1;
        let mut j: usize = 0;
        while j < size
            invariant
                j <= size,
                row@.len() == j,
                power == gf_pow(x, j as nat),
                forall|c: int| 0 <= c < j ==> #[trigger] row@[c] == gf_pow(x, c as nat),
            decreases size - j,
        {
            row.push(power);
            power = crate::field::mul(x, power);
            j += 1;
        }
        assert(row@ =~= powers(x, size as nat));
        matrix.push(row);
        i += 1;
    }
    proof {
        assert(rows_of(matrix) =~= vandermonde(values@, size as nat));
        assert(is_square(matrix, size as nat));
        if distinct(values@, size as nat) {
            lemma_vandermonde_regular(values@, size as nat);
        }
    }
    inverse(matrix)
}

/// Number of chunks of `k` bytes that a secret of `len` bytes fills: `len / k`,
/// rounded up.
pub open spec fn chunk_count(len: nat, k: nat) -> nat {
    if k == 0 {
        0
    } else {
        ((len + k - 1) / (k as int)) as nat
    }
}

/// Chunk `i` of the secret: the `k` bytes from position `i * k` on, with
/// zeros where the secret has ended.
pub open spec fn rabin_chunk(secret: Seq<u8>, k: nat, i: int) -> Seq<u8> {
    Seq::new(
        k,
        |j: int|
            if i * k + j < secret.len() {
                secret[i * k + j]
            } else {
                0u8
            },
    )
}

/// Body of the share with identifier `x`: for each chunk, the value at `x`
/// of the polynomial whose coefficients are the bytes of the chunk.
pub open spec fn rabin_body(secret: Seq<u8>, k: nat, x: u8) -> Seq<u8> {
    Seq::new(chunk_count(secret.len(), k), |i: int| poly_eval(rabin_chunk(secret, k, i), x))
}

/// The `n` shares of `secret` with threshold `k`.
pub open spec fn is_rabin_sharing(
    shares: Seq<RabinShare>,
    secret: Seq<u8>,
    n: nat,
    k: nat,
) -> bool {
    &&& shares.len() == n
    &&& forall|s: int|
        0 <= s < n ==> {
            &&& (#[trigger] shares[s]).id == s + 1
            &&& shares[s].length == secret.len()
            &&& shares[s].body@ == rabin_body(secret, k, (s + 1) as u8)
        }
}

/// The identifiers of the shares.
pub open spec fn rabin_ids(shares: Seq<RabinShare>) -> Seq<u8> {
    Seq::new(shares.len(), |m: int| shares[m].id)
}

/// The bodies of the shares.
pub open spec fn rabin_bodies(shares: Seq<RabinShare>) -> Seq<Seq<u8>> {
    Seq::new(shares.len(), |m: int| shares[m].body@)
}

/// The first `k` shares can be decoded together: their identifiers are
/// nonzero and pairwise different, they record the same length of the
/// secret, their bodies are equally long, and a body has a byte for each
/// chunk of a secret so long.
pub open spec fn rabin_consistent(shares: Seq<RabinShare>, k: nat) -> bool {
    &&& k <= shares.len()
    &&& usable_points(rabin_ids(shares), k)
    &&& forall|m: int| 0 <= m < k ==> (#[trigger] shares[m]).length == shares[0].length
    &&& forall|m: int|
        0 <= m < k ==> (#[trigger] shares[m]).body@.len() == shares[0].body@.len()
    &&& chunk_count(shares[0].length as nat, k) <= shares[0].body@.len()
}

/// The secret of `length` bytes that `k` shares with identifiers `xs` and the
/// given bodies stand for: chunk `i` holds the coefficients of the polynomial
/// that takes at each `xs[m]` the value `bodies[m][i]`.
pub open spec fn rabin_decode(xs: Seq<u8>, bodies: Seq<Seq<u8>>, k: nat, length: nat) -> Seq<u8> {
    Seq::new(
        length,
        |idx: int| interpolation(xs, values_at(bodies, k, idx / (k as int)), k)[idx % (k as int)],
    )
}

/// The number of chunks is the quotient `len / k`, and one more where the
/// division leaves a remainder.
proof fn lemma_chunk_count(len: nat, k: nat)
    requires
        k >= 1,
    ensures
        len % k == 0 ==> chunk_count(len, k) == len / k,
        len % k != 0 ==> chunk_count(len, k) == len / k + 1 && len / k < len,
{
    let q = (len / k) as int;
    let r = (len % k) as int;
    lemma_fundamental_div_mod(len as int, k as int);
    lemma_mul_is_commutative(q, k as int);
    if r == 0 {
        lemma_fundamental_div_mod_converse(len + k - 1, k as int, q, k - 1);
    } else {
        assert((q + 1) * k == q * k + k) by (nonlinear_arith);
        lemma_fundamental_div_mod_converse(len + k - 1, k as int, q + 1, r - 1);
        assert(q < len) by (nonlinear_arith)
            requires
                len == q * k + r,
                r >= 1,
                k >= 1,
                q >= 0,
        ;
    }
}

/// Chunk `i` starts inside the secret.
proof fn lemma_chunk_start(len: nat, k: nat, i: nat)
    requires
        k >= 1,
        i < chunk_count(len, k),
    ensures
        i * k < len,
{
    let q = (len / k) as int;
    let r = (len % k) as int;
    lemma_chunk_count(len, k);
    lemma_fundamental_div_mod(len as int, k as int);
    assert(i * k < len) by (nonlinear_arith)
        requires
            len == k * q + r,
            0 <= r < k,
            r == 0 ==> i < q,
            r != 0 ==> i <= q,
    ;
}

/// Byte `idx` of the secret lies in one of the chunks.
pub proof fn lemma_chunk_index(len: nat, k: nat, idx: nat)
    requires
        k >= 1,
        idx < len,
    ensures
        idx / k < chunk_count(len, k),
        idx % k < k,
{
    let q = (len / k) as int;
    let r = (len % k) as int;
    let iq = (idx / k) as int;
    let ir = (idx % k) as int;
    lemma_chunk_count(len, k);
    lemma_fundamental_div_mod(len as int, k as int);
    lemma_fundamental_div_mod(idx as int, k as int);
    assert(iq <= q && (r == 0 ==> iq < q)) by (nonlinear_arith)
        requires
            idx == k * iq + ir,
            0 <= ir < k,
            idx < len,
            len == k * q + r,
            0 <= r < k,
    ;
}

/// Number of chunks of `k` bytes in a secret of `length` bytes.
fn count_chunks(length: usize, k: usize) -> (c: usize)
    requires
        k >= 1,
    ensures
        c == chunk_count(length as nat, k as nat),
{
    proof {
        lemma_chunk_count(length as nat, k as nat);
    }
    let q = length / k;
    if length % k != 0 {
        q + 1
    } else {
        q
    }
}

/// Value at `x` of the polynomial of chunk `i` of the data.
fn chunk_value(data: &Vec<u8>, i: usize, k: u8, x: u8) -> (r: u8)
    requires
        k >= 1,
        i * k < data@.len(),
    ensures
        r == poly_eval(rabin_chunk(data@, k as nat, i as int), x),
{
    let len = data.len();
    let start = i * (k as usize);
    let avail = len - start;
    let ghost c = rabin_chunk(data@, k as nat, i as int);
    let mut acc: u8 = 0;
    let mut j: usize = k as usize;
    assert(c.subrange(k as int, k as int).len() == 0);
    while j > 0
        invariant
            j <= k,
            start == i * k,
            start < data@.len(),
            data@.len() <= usize::MAX,
            avail == data@.len() - start,
            c == rabin_chunk(data@, k as nat, i as int),
            acc == poly_eval(c.subrange(j as int, k as int), x),
        decreases j,
    {
        j -= 1;
        let byte = if j < avail { data[start + j] } else { 0 };
        proof {
            lemma_eval_suffix(c, x, j as int);
            assert(c[j as int] == byte);
        }
        acc = crate::field::add(byte, crate::field::mul(x, acc));
    }
    assert(c.subrange(0, k as int) =~= c);
    acc
}

/// Whether the first `k` shares can be decoded together.
fn check_rabin_shares(shares: &Vec<RabinShare>, k: u8) -> (b: bool)
    requires
        k >= 1,
    ensures
        b == rabin_consistent(shares@, k as nat),
{
    let count = k as usize;
    if shares.len() < count {
        return false;
    }
    let ids = collect_ids(shares);
    assert(ids@ =~= rabin_ids(shares@));
    let usable = check_points(&ids, count);
    if !usable {
        return false;
    }
    let length = shares[0].length;
    let width = shares[0].body.len();
    if count_chunks(length, count) > width {
        return false;
    }
    let mut m: usize = 0;
    while m < count
        invariant
            m <= count,
            count == k,
            count <= shares@.len(),
            length == shares@[0].length,
            width == shares@[0].body@.len(),
            forall|t: int| 0 <= t < m ==> (#[trigger] shares@[t]).length == length,
            forall|t: int| 0 <= t < m ==> (#[trigger] shares@[t]).body@.len() == width,
        decreases count - m,
    {
        if shares[m].length != length || shares[m].body.len() != width {
            return false;
        }
        m += 1;
    }
    true
}

/// Rabin's information dispersal: `n` shares, each about a `k`-th of the
/// secret in size, of which any `k` give the secret back. The shares keep
/// nothing secret.
pub struct RabinInformationDispersal {
    n: u8,
    k: u8,
}

impl RabinInformationDispersal {
    /// A dispersal into `n` shares with threshold `k`, where there is one:
    /// the threshold is at least one and at most `n`.
    pub fn new(n: u8, k: u8) -> (r: Result<Self, SharingError>)
        ensures
            r is Ok <==> valid_parameters(n as nat, k as nat),
            r is Err ==> r matches Err(SharingError::InvalidParameters),
            r matches Ok(s) ==> s.share_count() == n && s.threshold() == k,
    {
        if k < 1 || k > n {
            return Err(SharingError::InvalidParameters);
        }
        Ok(Self { n, k })
    }
}

impl Sharing for RabinInformationDispersal {
    type Share = RabinShare;

    closed spec fn share_count(&self) -> nat {
        self.n as nat
    }

    closed spec fn threshold(&self) -> nat {
        self.k as nat
    }

    open spec fn consistent(&self, shares: Seq<RabinShare>) -> bool {
        rabin_consistent(shares, self.threshold())
    }

    open spec fn decoded(&self, shares: Seq<RabinShare>) -> Seq<u8> {
        rabin_decode(
            rabin_ids(shares),
            rabin_bodies(shares),
            self.threshold(),
            shares[0].length as nat,
        )
    }

    fn share(&self, data: Vec<u8>) -> (r: Result<Vec<RabinShare>, SharingError>)
        ensures
            valid_parameters(self.share_count(), self.threshold()) ==> r is Ok,
            r matches Ok(shares) ==> is_rabin_sharing(
                shares@,
                data@,
                self.share_count(),
                self.threshold(),
            ),
    {
        if self.k < 1 || self.k > self.n {
            return Err(SharingError::InvalidParameters);
        }
        let length = data.len();
        let k = self.k as usize;
        let chunks = count_chunks(length, k);
        let mut shares: Vec<RabinShare> = Vec::new();
        let mut made: u8 = 0;
        while made < self.n
            invariant
                made <= self.n,
                1 <= self.k,
                k == self.k,
                length == data@.len(),
                chunks == chunk_count(length as nat, k as nat),
                is_rabin_sharing(shares@, data@, made as nat, k as nat),
            decreases self.n - made,
        {
            let id: u8 = made + 1;
            let mut body: Vec<u8> = Vec::new();
            let mut i: usize = 0;
            while i < chunks
                invariant
                    i <= chunks,
                    1 <= self.k,
                    k == self.k,
                    length == data@.len(),
                    chunks == chunk_count(length as nat, k as nat),
                    body@.len() == i,
                    forall|t: int|
                        0 <= t < i ==> #[trigger] body@[t] == poly_eval(
                            rabin_chunk(data@, k as nat, t),
                            id,
                        ),
                decreases chunks - i,
            {
                proof {
                    lemma_chunk_start(length as nat, k as nat, i as nat);
                }
                body.push(chunk_value(&data, i, self.k, id));
                i += 1;
            }
            assert(body@ =~= rabin_body(data@, k as nat, id));
            shares.push(RabinShare { id, length, body });
            made += 1;
        }
        Ok(shares)
    }

    fn recontruct(&self, shares: Vec<RabinShare>) -> (r: Result<Vec<u8>, SharingError>)
        ensures
            valid_parameters(self.share_count(), self.threshold()) && shares@.len()
                >= self.threshold() && !rabin_consistent(shares@, self.threshold()) ==> r == Err::<
                Vec<u8>,
                SharingError,
            >(SharingError::InconsistentShares),
            valid_parameters(self.share_count(), self.threshold()) && rabin_consistent(
                shares@,
                self.threshold(),
            ) ==> (r matches Ok(secret) && secret@ == rabin_decode(
                rabin_ids(shares@),
                rabin_bodies(shares@),
                self.threshold(),
                shares@[0].length as nat,
            )),
    {
        if self.k < 1 || self.k > self.n {
            return Err(SharingError::InvalidParameters);
        }
        let k = self.k as usize;
        if shares.len() < k {
            return Err(SharingError::InsufficientShares);
        }
        if !check_rabin_shares(&shares, self.k) {
            return Err(SharingError::InconsistentShares);
        }
        let ghost xs = rabin_ids(shares@);
        let ghost bodies = rabin_bodies(shares@);
        let xvalues = collect_ids(&shares);
        assert(xvalues@ =~= rabin_ids(shares@));
        let decoder = match generate_decoder(k, xvalues) {
            Some(d) => d,
            None => { return Err(SharingError::InconsistentShares); },
        };
        let length = shares[0].length;
        let mut secret: Vec<u8> = Vec::new();
        let mut idx: usize = 0;
        while idx < length
            invariant
                idx <= length,
                1 <= k,
                k == self.k,
                length == shares@[0].length,
                xs == rabin_ids(shares@),
                bodies == rabin_bodies(shares@),
                rabin_consistent(shares@, k as nat),
                is_square(decoder, k as nat),
                undoes(rows_of(decoder), vandermonde(xs, k as nat)),
                secret@.len() == idx,
                forall|p: int|
                    0 <= p < idx ==> #[trigger] secret@[p] == rabin_decode(
                        xs,
                        bodies,
                        k as nat,
                        length as nat,
                    )[p],
            decreases length - idx,
        {
            let i = idx / k;
            let j = idx % k;
            let ghost ys = values_at(bodies, k as nat, i as int);
            proof {
                lemma_chunk_index(length as nat, k as nat, idx as nat);
            }
            let mut acc: u8 = 0;
            let mut m: usize = 0;
            while m < k
                invariant
                    m <= k,
                    j < k,
                    k <= shares@.len(),
                    i < chunk_count(length as nat, k as nat),
                    length == shares@[0].length,
                    bodies == rabin_bodies(shares@),
                    ys == values_at(bodies, k as nat, i as int),
                    rabin_consistent(shares@, k as nat),
                    is_square(decoder, k as nat),
                    acc == dot_prefix(decoder@[j as int]@, ys, m as nat),
                decreases k - m,
            {
                assert(shares@[m as int].body@.len() == shares@[0].body@.len());
                assert(ys[m as int] == shares@[m as int].body@[i as int]);
                acc = crate::field::add(
                    acc,
                    crate::field::mul(decoder[j][m], shares[m].body[i]),
                );
                m += 1;
            }
            proof {
                lemma_decoder_interpolates(rows_of(decoder), xs, ys, k as nat);
                assert(mat_vec(rows_of(decoder), ys)[j as int] == acc);
            }
            secret.push(acc);
            idx += 1;
        }
        assert(secret@ =~= rabin_decode(xs, bodies, k as nat, length as nat));
        Ok(secret)
    }
}

} // verus!
