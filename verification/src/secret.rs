//! Secret sharing: Shamir's scheme, and Krawczyk's scheme, which encrypts
//! the secret, disperses the ciphertext and shares the key.

use vstd::prelude::*;
use rand::rngs::ThreadRng;
use rand::Rng;
use std::cell::RefCell;
use crate::error::SharingError;
use crate::field::lemma_add_self;
use crate::linear::{dot_prefix, rows_of};
use crate::outside::{
    chacha20_decrypt,
    chacha20_decrypted,
    chacha20_encrypt,
    chacha20_encrypted,
    fill_random,
    new_cell,
    KEYSTREAM_LIMIT,
};
use crate::poly::{
    check_points,
    evaluate,
    lagrange_weight,
    lagrange_weights,
    poly_eval,
    usable_points,
    values_at,
};
use crate::ids::{
    chunk_count,
    rabin_body,
    rabin_bodies,
    rabin_consistent,
    rabin_decode,
    rabin_ids,
    is_rabin_sharing,
    RabinInformationDispersal,
};
use crate::share::{
    collect_ids,
    copy_range,
    prepend,
    zeros,
    KrawczykShare,
    RabinShare,
    ShamirShare,
};
use crate::Sharing;
use crate::valid_parameters;

verus! {

/// The polynomial of secret byte `i`: the byte is the constant coefficient,
/// and row `i` of the randomness gives the higher ones.
pub open spec fn shamir_polynomial(secret: Seq<u8>, rows: Seq<Seq<u8>>, i: int) -> Seq<u8> {
    seq![secret[i]] + rows[i]
}

/// Body of the share with identifier `x`: for each byte of the secret, the
/// value at `x` of the polynomial of that byte.
pub open spec fn shamir_body(secret: Seq<u8>, rows: Seq<Seq<u8>>, x: u8) -> Seq<u8> {
    Seq::new(secret.len(), |i: int| poly_eval(shamir_polynomial(secret, rows, i), x))
}

/// The randomness has one row of `k - 1` bytes for each byte of the secret.
pub open spec fn randomness_fits(rows: Seq<Seq<u8>>, len: nat, k: nat) -> bool {
    &&& rows.len() == len
    &&& forall|i: int| 0 <= i < len ==> (#[trigger] rows[i]).len() == k - 1
}

/// The `n` shares of `secret` made with the given randomness.
pub open spec fn is_shamir_sharing(
    shares: Seq<ShamirShare>,
    secret: Seq<u8>,
    rows: Seq<Seq<u8>>,
    n: nat,
) -> bool {
    &&& shares.len() == n
    &&& forall|s: int|
        0 <= s < n ==> {
            &&& (#[trigger] shares[s]).id == s + 1
            &&& shares[s].body@ == shamir_body(secret, rows, (s + 1) as u8)
        }
}

/// The identifiers of the shares.
pub open spec fn shamir_ids(shares: Seq<ShamirShare>) -> Seq<u8> {
    Seq::new(shares.len(), |m: int| shares[m].id)
}

/// The bodies of the shares.
pub open spec fn shamir_bodies(shares: Seq<ShamirShare>) -> Seq<Seq<u8>> {
    Seq::new(shares.len(), |m: int| shares[m].body@)
}

/// The shares can be put together: the identifiers of the first `k` are
/// nonzero and pairwise different, and all bodies have the same length.
pub open spec fn shamir_consistent(shares: Seq<ShamirShare>, k: nat) -> bool {
    &&& k <= shares.len()
    &&& usable_points(shamir_ids(shares), k)
    &&& forall|m: int|
        0 <= m < shares.len() ==> (#[trigger] shares[m]).body@.len() == shares[0].body@.len()
}

/// The secret of `len` bytes that `k` shares with identifiers `xs` and the
/// given bodies stand for: byte `i` is the value at zero of the polynomial
/// through their values, the sum of `bodies[j][i]` times the product of
/// `xs[m] / (xs[m] - xs[j])` over the `m` other than `j`.
pub open spec fn shamir_secret(xs: Seq<u8>, bodies: Seq<Seq<u8>>, k: nat, len: nat) -> Seq<u8> {
    Seq::new(len, |i: int| dot_prefix(values_at(bodies, k, i), lagrange_weights(xs, k), k))
}

/// Shamir's secret sharing: `n` shares, each as long as the secret, of which
/// any `k` give the secret back and fewer say nothing about it.
#[verifier::reject_recursive_types(R)]
pub struct ShamirSecretSharing<R> {
    n: u8,
    k: u8,
    rng: RefCell<R>,
}

/// Whether the shares can be put together with threshold `k`.
fn check_shamir_shares(shares: &Vec<ShamirShare>, k: u8) -> (b: bool)
    requires
        k >= 1,
    ensures
        b == shamir_consistent(shares@, k as nat),
{
    let count = k as usize;
    if shares.len() < count {
        return false;
    }
    let ids = collect_ids(shares);
    assert(ids@ =~= shamir_ids(shares@));
    if !check_points(&ids, count) {
        return false;
    }
    let len = shares[0].body.len();
    let mut m: usize = 0;
    while m < shares.len()
        invariant
            m <= shares@.len(),
            0 < shares@.len(),
            len == shares@[0].body@.len(),
            forall|t: int| 0 <= t < m ==> (#[trigger] shares@[t]).body@.len() == len,
        decreases shares@.len() - m,
    {
        if shares[m].body.len() != len {
            return false;
        }
        m += 1;
    }
    true
}

/// The weights by which the values at the first `k` points are combined
/// into the value at zero.
pub fn interpolation_weights(xs: &Vec<u8>, k: usize) -> (w: Vec<u8>)
    requires
        usable_points(xs@, k as nat),
    ensures
        w@ == lagrange_weights(xs@, k as nat),
{
    let mut w: Vec<u8> = Vec::new();
    let mut j: usize = 0;
    while j < k
        invariant
            j <= k,
            usable_points(xs@, k as nat),
            w@.len() == j,
            forall|t: int| 0 <= t < j ==> w@[t] == lagrange_weight(xs@, t, k as nat),
        decreases k - j,
    {
        let mut weight: u8 = 1;
        let mut m: usize = 0;
        while m < k
            invariant
                m <= k,
                j < k,
                usable_points(xs@, k as nat),
                weight == lagrange_weight(xs@, j as int, m as nat),
            decreases k - m,
        {
            if m != j {
                let diff = crate::field::sub(xs[m], xs[j]);
                proof {
                    lemma_add_self(xs@[m as int], xs@[j as int]);
                    if m < j {
                        assert(xs@[m as int] != xs@[j as int]);
                    } else {
                        assert(xs@[j as int] != xs@[m as int]);
                    }
                }
                let quotient = crate::field::mul(xs[m], crate::field::inv(diff));
                weight = crate::field::mul(weight, quotient);
            }
            m += 1;
        }
        w.push(weight);
        j += 1;
    }
    assert(w@ =~= lagrange_weights(xs@, k as nat));
    w
}

impl<R: Rng> ShamirSecretSharing<R> {
    /// A sharing into `n` shares with threshold `k`, which draws its
    /// randomness from `rng`, where there is one: the threshold is at least
    /// one and at most `n`.
    pub fn new(n: u8, k: u8, rng: R) -> (r: Result<Self, SharingError>)
        ensures
            r is Ok <==> valid_parameters(n as nat, k as nat),
            r is Err ==> r matches Err(SharingError::InvalidParameters),
            r matches Ok(s) ==> s.share_count() == n && s.threshold() == k,
    {
        if k < 1 || k > n {
            return Err(SharingError::InvalidParameters);
        }
        Ok(Self { n, k, rng: new_cell(rng) })
    }

    /// The shares of `data` for the given randomness: row `i` holds the
    /// `k - 1` higher coefficients of the polynomial of byte `i`.
    pub fn share_with(&self, data: &Vec<u8>, randomness: &Vec<Vec<u8>>) -> (r: Result<
        Vec<ShamirShare>,
        SharingError,
    >)
        ensures
            r is Ok <==> valid_parameters(self.share_count(), self.threshold())
                && randomness_fits(rows_of(*randomness), data@.len(), self.threshold()),
            r is Err ==> r == Err::<Vec<ShamirShare>, SharingError>(
                SharingError::InvalidParameters,
            ),
            r matches Ok(shares) ==> is_shamir_sharing(
                shares@,
                data@,
                rows_of(*randomness),
                self.share_count(),
            ),
    {
        if self.k < 1 || self.k > self.n {
            return Err(SharingError::InvalidParameters);
        }
        let len = data.len();
        let k = self.k as usize;
        if randomness.len() != len {
            return Err(SharingError::InvalidParameters);
        }
        let ghost rows = rows_of(*randomness);
        let mut polynomials: Vec<Vec<u8>> = Vec::new();
        let mut i: usize = 0;
        while i < len
            invariant
                i <= len,
                len == data@.len(),
                len == randomness@.len(),
                rows == rows_of(*randomness),
                1 <= k <= 255,
                k == self.k,
                polynomials@.len() == i,
                forall|t: int| 0 <= t < i ==> (#[trigger] rows[t]).len() == k - 1,
                forall|t: int|
                    0 <= t < i ==> (#[trigger] polynomials@[t])@ == shamir_polynomial(
                        data@,
                        rows,
                        t,
                    ),
            decreases len - i,
        {
            let row = &randomness[i];
            assert(rows[i as int] == row@);
            if row.len() != k - 1 {
                return Err(SharingError::InvalidParameters);
            }
            polynomials.push(prepend(data[i], row));
            i += 1;
        }
        let mut shares: Vec<ShamirShare> = Vec::new();
        let mut made: u8 = 0;
        while made < self.n
            invariant
                made <= self.n,
                len == data@.len(),
                polynomials@.len() == len,
                forall|t: int|
                    0 <= t < len ==> (#[trigger] polynomials@[t])@ == shamir_polynomial(
                        data@,
                        rows,
                        t,
                    ),
                is_shamir_sharing(shares@, data@, rows, made as nat),
            decreases self.n - made,
        {
            let id: u8 = made + 1;
            let mut body: Vec<u8> = Vec::new();
            let mut i: usize = 0;
            while i < len
                invariant
                    i <= len,
                    len == data@.len(),
                    polynomials@.len() == len,
                    forall|t: int|
                        0 <= t < len ==> (#[trigger] polynomials@[t])@ == shamir_polynomial(
                            data@,
                            rows,
                            t,
                        ),
                    body@.len() == i,
                    forall|t: int|
                        0 <= t < i ==> #[trigger] body@[t] == poly_eval(
                            shamir_polynomial(data@, rows, t),
                            id,
                        ),
                decreases len - i,
            {
                body.push(evaluate(polynomials[i].as_slice(), id));
                i += 1;
            }
            assert(body@ =~= shamir_body(data@, rows, id));
            shares.push(ShamirShare { id, body });
            made += 1;
        }
        Ok(shares)
    }

    /// Draws the randomness that sharing `len` bytes takes: `len` rows of
    /// `k - 1` bytes. With a threshold of one the rows are empty, and the
    /// generator is not asked.
    fn draw_randomness(&self, len: usize) -> (r: Result<Vec<Vec<u8>>, SharingError>)
        requires
            self.threshold() >= 1,
        ensures
            len == 0 || self.threshold() == 1 ==> r is Ok,
            r is Err ==> r == Err::<Vec<Vec<u8>>, SharingError>(SharingError::RngFailure),
            r matches Ok(rows) ==> randomness_fits(rows_of(rows), len as nat, self.threshold()),
    {
        let mut rows: Vec<Vec<u8>> = Vec::new();
        let mut i: usize = 0;
        while i < len
            invariant
                i <= len,
                self.k >= 1,
                rows@.len() == i,
                forall|t: int| 0 <= t < i ==> (#[trigger] rows@[t])@.len() == self.k - 1,
            decreases len - i,
        {
            let mut row = zeros((self.k - 1) as usize);
            if self.k > 1 {
                match fill_random(&self.rng, &mut row) {
                    Ok(_) => {},
                    Err(_) => {
                        return Err(SharingError::RngFailure);
                    },
                }
            }
            rows.push(row);
            i += 1;
        }
        proof {
            assert forall|t: int| 0 <= t < len implies (#[trigger] rows_of(rows)[t]).len()
                == self.k - 1 by {
                assert(rows@[t]@.len() == self.k - 1);
            }
        }
        Ok(rows)
    }
}

impl<R: Rng> ShamirSecretSharing<R> {
    /// The number `n` of shares that `share` makes.
    pub closed spec fn share_count(&self) -> nat {
        self.n as nat
    }

    /// The number `k` of shares that `recontruct` needs.
    pub closed spec fn threshold(&self) -> nat {
        self.k as nat
    }

    /// Splits `data` into `n` shares, which carry the identifiers `1..=n` in
    /// this order, with randomness drawn from the generator: `k - 1` bytes
    /// for each byte of the secret.
    pub fn share(&self, data: Vec<u8>) -> (r: Result<Vec<ShamirShare>, SharingError>)
        ensures
            !valid_parameters(self.share_count(), self.threshold()) ==> r == Err::<
                Vec<ShamirShare>,
                SharingError,
            >(SharingError::InvalidParameters),
            valid_parameters(self.share_count(), self.threshold()) && (data@.len() == 0
                || self.threshold() == 1) ==> r is Ok,
            r is Err ==> !valid_parameters(self.share_count(), self.threshold()) || r == Err::<
                Vec<ShamirShare>,
                SharingError,
            >(SharingError::RngFailure),
            r matches Ok(shares) ==> exists|rows: Seq<Seq<u8>>|
                randomness_fits(rows, data@.len(), self.threshold())
                    && #[trigger] is_shamir_sharing(
                    shares@,
                    data@,
                    rows,
                    self.share_count(),
                ),
    {
        if self.k < 1 || self.k > self.n {
            return Err(SharingError::InvalidParameters);
        }
        let rows = match self.draw_randomness(data.len()) {
            Ok(rows) => rows,
            Err(e) => {
                return Err(e);
            },
        };
        self.share_with(&data, &rows)
    }

    /// Puts the secret together again from the first `k` of the shares
    /// given.
    pub fn recontruct(&self, shares: Vec<ShamirShare>) -> (r: Result<Vec<u8>, SharingError>)
        ensures
            !valid_parameters(self.share_count(), self.threshold()) ==> r == Err::<
                Vec<u8>,
                SharingError,
            >(SharingError::InvalidParameters),
            valid_parameters(self.share_count(), self.threshold()) && shares@.len()
                < self.threshold() ==> r == Err::<Vec<u8>, SharingError>(
                SharingError::InsufficientShares,
            ),
            valid_parameters(self.share_count(), self.threshold()) && shares@.len()
                >= self.threshold() && !shamir_consistent(shares@, self.threshold()) ==> r
                == Err::<Vec<u8>, SharingError>(SharingError::InconsistentShares),
            valid_parameters(self.share_count(), self.threshold()) && shamir_consistent(
                shares@,
                self.threshold(),
            ) ==> (r matches Ok(secret) && secret@ == shamir_secret(
                shamir_ids(shares@),
                shamir_bodies(shares@),
                self.threshold(),
                shares@[0].body@.len(),
            )),
    {
        if self.k < 1 || self.k > self.n {
            return Err(SharingError::InvalidParameters);
        }
        let k = self.k as usize;
        if shares.len() < k {
            return Err(SharingError::InsufficientShares);
        }
        if !check_shamir_shares(&shares, self.k) {
            return Err(SharingError::InconsistentShares);
        }
        let ids = collect_ids(&shares);
        assert(ids@ =~= shamir_ids(shares@));
        let weights = interpolation_weights(&ids, k);
        let ghost xs = shamir_ids(shares@);
        let ghost bodies = shamir_bodies(shares@);
        let len = shares[0].body.len();
        let mut secret: Vec<u8> = Vec::new();
        let mut i: usize = 0;
        while i < len
            invariant
                i <= len,
                1 <= k,
                k == self.k,
                len == shares@[0].body@.len(),
                xs == shamir_ids(shares@),
                bodies == shamir_bodies(shares@),
                shamir_consistent(shares@, k as nat),
                weights@ == lagrange_weights(xs, k as nat),
                secret@.len() == i,
                forall|p: int|
                    0 <= p < i ==> #[trigger] secret@[p] == shamir_secret(
                        xs,
                        bodies,
                        k as nat,
                        len as nat,
                    )[p],
            decreases len - i,
        {
            let ghost ys = values_at(bodies, k as nat, i as int);
            let mut acc: u8 = 0;
            let mut j: usize = 0;
            while j < k
                invariant
                    j <= k,
                    i < len,
                    k <= shares@.len(),
                    len == shares@[0].body@.len(),
                    bodies == shamir_bodies(shares@),
                    ys == values_at(bodies, k as nat, i as int),
                    shamir_consistent(shares@, k as nat),
                    weights@.len() == k,
                    acc == dot_prefix(ys, weights@, j as nat),
                decreases k - j,
            {
                assert(shares@[j as int].body@.len() == len);
                assert(ys[j as int] == shares@[j as int].body@[i as int]);
                acc = crate::field::add(acc, crate::field::mul(shares[j].body[i], weights[j]));
                j += 1;
            }
            secret.push(acc);
            i += 1;
        }
        assert(secret@ =~= shamir_secret(xs, bodies, k as nat, len as nat));
        Ok(secret)
    }
}

/// Length of the key of the stream cipher, in bytes.
pub const KEY_LENGTH: usize = 32;

/// Length of the key and the nonce together, in bytes.
pub const KEY_NONCE_LENGTH: usize = 44;

/// The ciphertext of `secret` under the key and nonce held in `key_nonce`:
/// the key in the first 32 bytes, the nonce in the 12 after them.
pub open spec fn krawczyk_ciphertext(secret: Seq<u8>, key_nonce: Seq<u8>) -> Seq<u8> {
    chacha20_encrypted(key_nonce.subrange(0, 32), key_nonce.subrange(32, 44), secret)
}

/// The `n` shares of `secret` made with the given key and nonce and the
/// given randomness: share `s` holds Rabin's share of the ciphertext and
/// Shamir's share of the key and nonce, both with identifier `s + 1`. The
/// ciphertext is as long as the secret and decrypts to it.
pub open spec fn is_krawczyk_sharing(
    shares: Seq<KrawczykShare>,
    secret: Seq<u8>,
    key_nonce: Seq<u8>,
    rows: Seq<Seq<u8>>,
    n: nat,
    k: nat,
) -> bool {
    &&& shares.len() == n
    &&& krawczyk_ciphertext(secret, key_nonce).len() == secret.len()
    &&& chacha20_decrypted(
        key_nonce.subrange(0, 32),
        key_nonce.subrange(32, 44),
        krawczyk_ciphertext(secret, key_nonce),
    ) == secret
    &&& forall|s: int|
        0 <= s < n ==> {
            &&& (#[trigger] shares[s]).id == s + 1
            &&& shares[s].length == secret.len()
            &&& shares[s].key@ == shamir_body(key_nonce, rows, (s + 1) as u8)
            &&& shares[s].body@ == rabin_body(
                krawczyk_ciphertext(secret, key_nonce),
                k,
                (s + 1) as u8,
            )
        }
}

/// The identifiers of the first `k` shares.
pub open spec fn krawczyk_ids(shares: Seq<KrawczykShare>, k: nat) -> Seq<u8> {
    Seq::new(k, |m: int| shares[m].id)
}

/// The key parts of the first `k` shares.
pub open spec fn krawczyk_keys(shares: Seq<KrawczykShare>, k: nat) -> Seq<Seq<u8>> {
    Seq::new(k, |m: int| shares[m].key@)
}

/// The bodies of the first `k` shares.
pub open spec fn krawczyk_bodies(shares: Seq<KrawczykShare>, k: nat) -> Seq<Seq<u8>> {
    Seq::new(k, |m: int| shares[m].body@)
}

/// The first `k` shares can be put together: their identifiers are nonzero
/// and pairwise different, they record the same length of the secret, their
/// bodies are equally long, and a body has a byte for each chunk of a
/// ciphertext so long.
pub open spec fn krawczyk_consistent(shares: Seq<KrawczykShare>, k: nat) -> bool {
    &&& k <= shares.len()
    &&& usable_points(krawczyk_ids(shares, k), k)
    &&& forall|m: int| 0 <= m < k ==> (#[trigger] shares[m]).length == shares[0].length
    &&& forall|m: int|
        0 <= m < k ==> (#[trigger] shares[m]).body@.len() == shares[0].body@.len()
    &&& chunk_count(shares[0].length as nat, k) <= shares[0].body@.len()
}

/// The key and nonce that the first `k` shares stand for.
pub open spec fn krawczyk_key_nonce(shares: Seq<KrawczykShare>, k: nat) -> Seq<u8> {
    shamir_secret(krawczyk_ids(shares, k), krawczyk_keys(shares, k), k, 44)
}

/// The ciphertext that the first `k` shares stand for.
pub open spec fn krawczyk_dispersed(shares: Seq<KrawczykShare>, k: nat) -> Seq<u8> {
    rabin_decode(
        krawczyk_ids(shares, k),
        krawczyk_bodies(shares, k),
        k,
        shares[0].length as nat,
    )
}

/// The secret that the first `k` shares stand for: the ciphertext they
/// stand for, decrypted with the key and nonce they stand for.
pub open spec fn krawczyk_secret(shares: Seq<KrawczykShare>, k: nat) -> Seq<u8> {
    let key_nonce = krawczyk_key_nonce(shares, k);
    chacha20_decrypted(
        key_nonce.subrange(0, 32),
        key_nonce.subrange(32, 44),
        krawczyk_dispersed(shares, k),
    )
}

/// Krawczyk's secret sharing: the secret is encrypted with ChaCha20 under a
/// fresh key and nonce, the ciphertext is dispersed with Rabin's algorithm,
/// and the key and nonce are shared with Shamir's scheme.
#[verifier::reject_recursive_types(R)]
pub struct KrawczykSecretSharing<R> {
    shamir: ShamirSecretSharing<R>,
}

impl<R: Rng> KrawczykSecretSharing<R> {
    /// A sharing into `n` shares with threshold `k`, which draws the key,
    /// the nonce and the randomness of Shamir's scheme from `rng`, where
    /// there is one: the threshold is at least one and at most `n`.
    pub fn new(n: u8, k: u8, rng: R) -> (r: Result<Self, SharingError>)
        ensures
            r is Ok <==> valid_parameters(n as nat, k as nat),
            r is Err ==> r matches Err(SharingError::InvalidParameters),
            r matches Ok(s) ==> s.share_count() == n && s.threshold() == k,
    {
        match ShamirSecretSharing::new(n, k, rng) {
            Ok(shamir) => Ok(Self { shamir }),
            Err(e) => Err(e),
        }
    }

    /// The number `n` of shares that `share` makes.
    pub closed spec fn share_count(&self) -> nat {
        self.shamir.share_count()
    }

    /// The number `k` of shares that `recontruct` needs.
    pub closed spec fn threshold(&self) -> nat {
        self.shamir.threshold()
    }

    /// The shares of `data` for the given key and nonce and the given
    /// randomness, which has 44 rows of `k - 1` bytes.
    pub fn share_with(
        &self,
        data: &Vec<u8>,
        key_nonce: &[u8; 44],
        randomness: &Vec<Vec<u8>>,
    ) -> (r: Result<Vec<KrawczykShare>, SharingError>)
        ensures
            r is Ok <==> valid_parameters(self.share_count(), self.threshold()) && data@.len()
                <= KEYSTREAM_LIMIT && randomness_fits(rows_of(*randomness), 44, self.threshold()),
            valid_parameters(self.share_count(), self.threshold()) && data@.len()
                > KEYSTREAM_LIMIT ==> r == Err::<Vec<KrawczykShare>, SharingError>(
                SharingError::CipherFailure,
            ),
            r is Err && !(valid_parameters(self.share_count(), self.threshold()) && data@.len()
                > KEYSTREAM_LIMIT) ==> r == Err::<Vec<KrawczykShare>, SharingError>(
                SharingError::InvalidParameters,
            ),
            r matches Ok(shares) ==> is_krawczyk_sharing(
                shares@,
                data@,
                key_nonce@,
                rows_of(*randomness),
                self.share_count(),
                self.threshold(),
            ),
    {
        let n = self.shamir.n;
        let k = self.shamir.k;
        if k < 1 || k > n {
            return Err(SharingError::InvalidParameters);
        }
        let length = data.len();
        if length as u64 > KEYSTREAM_LIMIT {
            return Err(SharingError::CipherFailure);
        }
        let key_shares = match self.shamir.share_with(
            &copy_range(key_nonce.as_slice(), 0, KEY_NONCE_LENGTH),
            randomness,
        ) {
            Ok(shares) => shares,
            Err(e) => {
                return Err(e);
            },
        };
        assert(key_nonce@.subrange(0, 44) =~= key_nonce@);
        let key = copy_range(key_nonce.as_slice(), 0, KEY_LENGTH);
        let nonce = copy_range(key_nonce.as_slice(), KEY_LENGTH, KEY_NONCE_LENGTH);
        let plaintext = copy_range(data.as_slice(), 0, length);
        assert(plaintext@ =~= data@);
        let ciphertext = match chacha20_encrypt(key.as_slice(), nonce.as_slice(), plaintext) {
            Ok(out) => out,
            Err(_) => {
                return Err(SharingError::CipherFailure);
            },
        };
        let ghost cipher = ciphertext@;
        let rabin = match RabinInformationDispersal::new(n, k) {
            Ok(rabin) => rabin,
            Err(e) => {
                return Err(e);
            },
        };
        let rabin_shares = match rabin.share(ciphertext) {
            Ok(shares) => shares,
            Err(e) => {
                return Err(e);
            },
        };
        let mut shares: Vec<KrawczykShare> = Vec::new();
        let mut made: usize = 0;
        while made < n as usize
            invariant
                made <= n,
                n == self.share_count(),
                k == self.threshold(),
                length == data@.len(),
                cipher == krawczyk_ciphertext(data@, key_nonce@),
                is_rabin_sharing(rabin_shares@, cipher, n as nat, k as nat),
                is_shamir_sharing(key_shares@, key_nonce@, rows_of(*randomness), n as nat),
                is_krawczyk_sharing(
                    shares@,
                    data@,
                    key_nonce@,
                    rows_of(*randomness),
                    made as nat,
                    k as nat,
                ),
            decreases n - made,
        {
            let dispersed = &rabin_shares[made];
            let shared = &key_shares[made];
            let mut key_part = [0u8; 44];
            let mut t: usize = 0;
            while t < KEY_NONCE_LENGTH
                invariant
                    t <= 44,
                    shared.body@.len() == 44,
                    forall|p: int| 0 <= p < t ==> key_part@[p] == shared.body@[p],
                decreases 44 - t,
            {
                key_part[t] = shared.body[t];
                t += 1;
            }
            assert(key_part@ =~= shared.body@);
            let body = copy_range(dispersed.body.as_slice(), 0, dispersed.body.len());
            assert(body@ =~= dispersed.body@);
            shares.push(KrawczykShare { id: dispersed.id, length, key: key_part, body });
            made += 1;
        }
        Ok(shares)
    }

    /// Splits `data` into `n` shares, which carry the identifiers `1..=n` in
    /// this order, with key, nonce and randomness drawn from the generator.
    pub fn share(&self, data: Vec<u8>) -> (r: Result<Vec<KrawczykShare>, SharingError>)
        ensures
            !valid_parameters(self.share_count(), self.threshold()) ==> r == Err::<
                Vec<KrawczykShare>,
                SharingError,
            >(SharingError::InvalidParameters),
            valid_parameters(self.share_count(), self.threshold()) && data@.len()
                > KEYSTREAM_LIMIT ==> r == Err::<Vec<KrawczykShare>, SharingError>(
                SharingError::CipherFailure,
            ),
            r is Err && valid_parameters(self.share_count(), self.threshold()) && data@.len()
                <= KEYSTREAM_LIMIT ==> r == Err::<Vec<KrawczykShare>, SharingError>(
                SharingError::RngFailure,
            ),
            r matches Ok(shares) ==> exists|key_nonce: Seq<u8>, rows: Seq<Seq<u8>>|
                key_nonce.len() == 44 && randomness_fits(rows, 44, self.threshold())
                    && #[trigger] is_krawczyk_sharing(
                    shares@,
                    data@,
                    key_nonce,
                    rows,
                    self.share_count(),
                    self.threshold(),
                ),
    {
        if self.shamir.k < 1 || self.shamir.k > self.shamir.n {
            return Err(SharingError::InvalidParameters);
        }
        if data.len() as u64 > KEYSTREAM_LIMIT {
            return Err(SharingError::CipherFailure);
        }
        let mut drawn = crate::share::zeros(KEY_NONCE_LENGTH);
        match fill_random(&self.shamir.rng, &mut drawn) {
            Ok(_) => {},
            Err(_) => {
                return Err(SharingError::RngFailure);
            },
        }
        let mut key_nonce = [0u8; 44];
        let mut t: usize = 0;
        while t < KEY_NONCE_LENGTH
            invariant
                t <= 44,
                drawn@.len() == 44,
            decreases 44 - t,
        {
            key_nonce[t] = drawn[t];
            t += 1;
        }
        let rows = match self.shamir.draw_randomness(KEY_NONCE_LENGTH) {
            Ok(rows) => rows,
            Err(e) => {
                return Err(e);
            },
        };
        self.share_with(&data, &key_nonce, &rows)
    }

    /// Puts the secret together again from the first `k` of the shares
    /// given: the key and nonce by Shamir's scheme, the ciphertext by
    /// Rabin's algorithm, and from them the plaintext.
    pub fn recontruct(&self, shares: Vec<KrawczykShare>) -> (r: Result<Vec<u8>, SharingError>)
        ensures
            !valid_parameters(self.share_count(), self.threshold()) ==> r == Err::<
                Vec<u8>,
                SharingError,
            >(SharingError::InvalidParameters),
            valid_parameters(self.share_count(), self.threshold()) && shares@.len()
                < self.threshold() ==> r == Err::<Vec<u8>, SharingError>(
                SharingError::InsufficientShares,
            ),
            valid_parameters(self.share_count(), self.threshold()) && shares@.len()
                >= self.threshold() && !krawczyk_consistent(shares@, self.threshold()) ==> r
                == Err::<Vec<u8>, SharingError>(SharingError::InconsistentShares),
            valid_parameters(self.share_count(), self.threshold()) && krawczyk_consistent(
                shares@,
                self.threshold(),
            ) && shares@[0].length > KEYSTREAM_LIMIT ==> r == Err::<Vec<u8>, SharingError>(
                SharingError::CipherFailure,
            ),
            valid_parameters(self.share_count(), self.threshold()) && krawczyk_consistent(
                shares@,
                self.threshold(),
            ) && shares@[0].length <= KEYSTREAM_LIMIT ==> (r matches Ok(secret) && secret@
                == krawczyk_secret(shares@, self.threshold()) && secret@.len()
                == shares@[0].length),
    {
        let n = self.shamir.n;
        let k = self.shamir.k;
        if k < 1 || k > n {
            return Err(SharingError::InvalidParameters);
        }
        let count = k as usize;
        if shares.len() < count {
            return Err(SharingError::InsufficientShares);
        }
        let mut key_views: Vec<ShamirShare> = Vec::new();
        let mut body_views: Vec<RabinShare> = Vec::new();
        let mut m: usize = 0;
        while m < count
            invariant
                m <= count,
                count <= shares@.len(),
                key_views@.len() == m,
                body_views@.len() == m,
                forall|t: int|
                    0 <= t < m ==> {
                        &&& (#[trigger] key_views@[t]).id == shares@[t].id
                        &&& key_views@[t].body@ == shares@[t].key@
                    },
                forall|t: int|
                    0 <= t < m ==> {
                        &&& (#[trigger] body_views@[t]).id == shares@[t].id
                        &&& body_views@[t].length == shares@[t].length
                        &&& body_views@[t].body@ == shares@[t].body@
                    },
            decreases count - m,
        {
            let share = &shares[m];
            let key = copy_range(share.key.as_slice(), 0, KEY_NONCE_LENGTH);
            assert(key@ =~= share.key@);
            let body = copy_range(share.body.as_slice(), 0, share.body.len());
            assert(body@ =~= share.body@);
            key_views.push(ShamirShare { id: share.id, body: key });
            body_views.push(RabinShare { id: share.id, length: share.length, body });
            m += 1;
        }
        proof {
            assert(shamir_ids(key_views@) =~= krawczyk_ids(shares@, k as nat));
            assert(rabin_ids(body_views@) =~= krawczyk_ids(shares@, k as nat));
            assert(shamir_bodies(key_views@) =~= krawczyk_keys(shares@, k as nat));
            assert(rabin_bodies(body_views@) =~= krawczyk_bodies(shares@, k as nat));
            let views = body_views@;
            let given = shares@;
            let width = given[0].body@.len();
            assert(views[0].length == given[0].length);
            assert(views[0].body@.len() == width);
            if krawczyk_consistent(given, k as nat) {
                assert forall|t: int| 0 <= t < k implies (#[trigger] views[t]).length
                    == views[0].length && views[t].body@.len() == width by {
                    assert(given[t].length == given[0].length);
                    assert(given[t].body@.len() == width);
                }
            }
            if rabin_consistent(views, k as nat) {
                assert forall|t: int| 0 <= t < k implies (#[trigger] given[t]).length
                    == given[0].length && given[t].body@.len() == width by {
                    assert(views[t].length == views[0].length);
                    assert(views[t].body@.len() == width);
                }
            }
            assert(rabin_consistent(views, k as nat) == krawczyk_consistent(given, k as nat));
            assert(krawczyk_consistent(shares@, k as nat) ==> shamir_consistent(
                key_views@,
                k as nat,
            ));
        }
        let rabin = match RabinInformationDispersal::new(n, k) {
            Ok(rabin) => rabin,
            Err(e) => {
                return Err(e);
            },
        };
        let ciphertext = match rabin.recontruct(body_views) {
            Ok(bytes) => bytes,
            Err(e) => {
                return Err(e);
            },
        };
        let key_nonce = match self.shamir.recontruct(key_views) {
            Ok(bytes) => bytes,
            Err(e) => {
                return Err(e);
            },
        };
        if ciphertext.len() as u64 > KEYSTREAM_LIMIT {
            return Err(SharingError::CipherFailure);
        }
        let key = copy_range(key_nonce.as_slice(), 0, KEY_LENGTH);
        let nonce = copy_range(key_nonce.as_slice(), KEY_LENGTH, KEY_NONCE_LENGTH);
        assert(ciphertext@.len() == shares@[0].length);
        match chacha20_decrypt(key.as_slice(), nonce.as_slice(), ciphertext) {
            Ok(out) => Ok(out),
            Err(_) => Err(SharingError::CipherFailure),
        }
    }
}

impl Sharing for ShamirSecretSharing<ThreadRng> {
    type Share = ShamirShare;

    open spec fn share_count(&self) -> nat {
        ShamirSecretSharing::share_count(self)
    }

    open spec fn threshold(&self) -> nat {
        ShamirSecretSharing::threshold(self)
    }

    open spec fn consistent(&self, shares: Seq<ShamirShare>) -> bool {
        shamir_consistent(shares, self.threshold())
    }

    open spec fn decoded(&self, shares: Seq<ShamirShare>) -> Seq<u8> {
        shamir_secret(
            shamir_ids(shares),
            shamir_bodies(shares),
            self.threshold(),
            shares[0].body@.len(),
        )
    }

    fn share(&self, data: Vec<u8>) -> (r: Result<Vec<ShamirShare>, SharingError>)
        ensures
            valid_parameters(self.share_count(), self.threshold()) && (data@.len() == 0
                || self.threshold() == 1) ==> r is Ok,
            r is Err ==> !valid_parameters(self.share_count(), self.threshold()) || r == Err::<
                Vec<ShamirShare>,
                SharingError,
            >(SharingError::RngFailure),
            r matches Ok(shares) ==> exists|rows: Seq<Seq<u8>>|
                randomness_fits(rows, data@.len(), self.threshold())
                    && #[trigger] is_shamir_sharing(
                    shares@,
                    data@,
                    rows,
                    self.share_count(),
                ),
    {
        ShamirSecretSharing::share(self, data)
    }

    fn recontruct(&self, shares: Vec<ShamirShare>) -> (r: Result<Vec<u8>, SharingError>)
        ensures
            valid_parameters(self.share_count(), self.threshold()) && shares@.len()
                >= self.threshold() && !shamir_consistent(shares@, self.threshold()) ==> r
                == Err::<Vec<u8>, SharingError>(SharingError::InconsistentShares),
            valid_parameters(self.share_count(), self.threshold()) && shamir_consistent(
                shares@,
                self.threshold(),
            ) ==> (r matches Ok(secret) && secret@ == shamir_secret(
                shamir_ids(shares@),
                shamir_bodies(shares@),
                self.threshold(),
                shares@[0].body@.len(),
            )),
    {
        ShamirSecretSharing::recontruct(self, shares)
    }
}

impl Sharing for KrawczykSecretSharing<ThreadRng> {
    type Share = KrawczykShare;

    open spec fn share_count(&self) -> nat {
        KrawczykSecretSharing::share_count(self)
    }

    open spec fn threshold(&self) -> nat {
        KrawczykSecretSharing::threshold(self)
    }

    open spec fn consistent(&self, shares: Seq<KrawczykShare>) -> bool {
        krawczyk_consistent(shares, self.threshold()) && shares[0].length <= KEYSTREAM_LIMIT
    }

    open spec fn decoded(&self, shares: Seq<KrawczykShare>) -> Seq<u8> {
        krawczyk_secret(shares, self.threshold())
    }

    fn share(&self, data: Vec<u8>) -> (r: Result<Vec<KrawczykShare>, SharingError>)
        ensures
            valid_parameters(self.share_count(), self.threshold()) && data@.len()
                > KEYSTREAM_LIMIT ==> r == Err::<Vec<KrawczykShare>, SharingError>(
                SharingError::CipherFailure,
            ),
            r is Err && valid_parameters(self.share_count(), self.threshold()) && data@.len()
                <= KEYSTREAM_LIMIT ==> r == Err::<Vec<KrawczykShare>, SharingError>(
                SharingError::RngFailure,
            ),
            r matches Ok(shares) ==> exists|key_nonce: Seq<u8>, rows: Seq<Seq<u8>>|
                key_nonce.len() == 44 && randomness_fits(rows, 44, self.threshold())
                    && #[trigger] is_krawczyk_sharing(
                    shares@,
                    data@,
                    key_nonce,
                    rows,
                    self.share_count(),
                    self.threshold(),
                ),
    {
        KrawczykSecretSharing::share(self, data)
    }

    fn recontruct(&self, shares: Vec<KrawczykShare>) -> (r: Result<Vec<u8>, SharingError>)
        ensures
            valid_parameters(self.share_count(), self.threshold()) && shares@.len()
                >= self.threshold() && !krawczyk_consistent(shares@, self.threshold()) ==> r
                == Err::<Vec<u8>, SharingError>(SharingError::InconsistentShares),
            valid_parameters(self.share_count(), self.threshold()) && krawczyk_consistent(
                shares@,
                self.threshold(),
            ) && shares@[0].length > KEYSTREAM_LIMIT ==> r == Err::<Vec<u8>, SharingError>(
                SharingError::CipherFailure,
            ),
            valid_parameters(self.share_count(), self.threshold()) && krawczyk_consistent(
                shares@,
                self.threshold(),
            ) && shares@[0].length <= KEYSTREAM_LIMIT ==> (r matches Ok(secret) && secret@
                == krawczyk_secret(shares@, self.threshold()) && secret@.len()
                == shares@[0].length),
    {
        KrawczykSecretSharing::recontruct(self, shares)
    }
}

} // verus!
