//! What holds of the three schemes: any `k` shares of a sharing give the
//! secret back, in whatever order they come, and the shares have the sizes
//! and identifiers they should.

use vstd::prelude::*;
use vstd::arithmetic::div_mod::lemma_fundamental_div_mod;
use crate::ids::{
    chunk_count,
    is_rabin_sharing,
    lemma_chunk_index,
    rabin_bodies,
    rabin_body,
    rabin_chunk,
    rabin_consistent,
    rabin_decode,
    rabin_ids,
};
use crate::poly::{
    distinct,
    interpolation,
    lemma_interpolation_hits,
    lemma_interpolation_recovers,
    lemma_weights_give_constant,
    poly_eval,
    usable_points,
    values_at,
};
use crate::secret::{
    is_krawczyk_sharing,
    is_shamir_sharing,
    krawczyk_bodies,
    krawczyk_ciphertext,
    krawczyk_consistent,
    krawczyk_dispersed,
    krawczyk_ids,
    krawczyk_key_nonce,
    krawczyk_keys,
    krawczyk_secret,
    randomness_fits,
    shamir_bodies,
    shamir_body,
    shamir_consistent,
    shamir_ids,
    shamir_polynomial,
    shamir_secret,
};
use crate::share::{KrawczykShare, RabinShare, ShamirShare};
use crate::valid_parameters;

verus! {

/// Each of `picked` is the share of `all` whose position `picks` names, and
/// the first `k` of them are different shares.
pub open spec fn picked_from<T>(picked: Seq<T>, all: Seq<T>, picks: Seq<int>, k: nat) -> bool {
    &&& picks.len() == picked.len()
    &&& k <= picked.len()
    &&& forall|m: int|
        0 <= m < picked.len() ==> 0 <= #[trigger] picks[m] < all.len() && picked[m]
            == all[picks[m]]
    &&& forall|a: int, b: int| 0 <= a < b < k ==> picks[a] != picks[b]
}

/// `second` holds the `k` shares of `first` in the order that `perm` gives.
pub open spec fn permuted<T>(first: Seq<T>, second: Seq<T>, perm: Seq<int>, k: nat) -> bool {
    &&& first.len() == k
    &&& second.len() == k
    &&& perm.len() == k
    &&& forall|m: int| 0 <= m < k ==> 0 <= #[trigger] perm[m] < k && second[m] == first[perm[m]]
    &&& forall|a: int, b: int| 0 <= a < b < k ==> perm[a] != perm[b]
}

/// Shamir's interpolation gives the secret back from the bodies that belong
/// to `k` different identifiers.
pub proof fn lemma_shamir_recovers(
    secret: Seq<u8>,
    rows: Seq<Seq<u8>>,
    xs: Seq<u8>,
    bodies: Seq<Seq<u8>>,
    k: nat,
)
    requires
        k >= 1,
        randomness_fits(rows, secret.len(), k),
        distinct(xs, k),
        forall|m: int| 0 <= m < k ==> #[trigger] bodies[m] == shamir_body(secret, rows, xs[m]),
    ensures
        shamir_secret(xs, bodies, k, secret.len()) == secret,
{
    let recovered = shamir_secret(xs, bodies, k, secret.len());
    assert forall|i: int| 0 <= i < secret.len() implies recovered[i] == secret[i] by {
        let p = shamir_polynomial(secret, rows, i);
        let ys = values_at(bodies, k, i);
        assert(rows[i].len() == k - 1);
        assert forall|m: int| 0 <= m < k implies ys[m] == poly_eval(p, #[trigger] xs[m]) by {
            assert(bodies[m] == shamir_body(secret, rows, xs[m]));
        }
        lemma_interpolation_recovers(p, xs, ys, k);
        lemma_weights_give_constant(xs, ys, k);
    }
    assert(recovered =~= secret);
}

/// Rabin's decoding gives the secret back from the bodies that belong to
/// `k` different identifiers.
pub proof fn lemma_rabin_recovers(secret: Seq<u8>, xs: Seq<u8>, bodies: Seq<Seq<u8>>, k: nat)
    requires
        k >= 1,
        distinct(xs, k),
        forall|m: int| 0 <= m < k ==> #[trigger] bodies[m] == rabin_body(secret, k, xs[m]),
    ensures
        rabin_decode(xs, bodies, k, secret.len()) == secret,
{
    let recovered = rabin_decode(xs, bodies, k, secret.len());
    assert forall|idx: int| 0 <= idx < secret.len() implies recovered[idx] == secret[idx] by {
        let i = idx / (k as int);
        let j = idx % (k as int);
        lemma_chunk_index(secret.len(), k, idx as nat);
        lemma_fundamental_div_mod(idx, k as int);
        assert(i * k + j == idx) by (nonlinear_arith)
            requires
                idx == k * i + j,
        ;
        let c = rabin_chunk(secret, k, i);
        let ys = values_at(bodies, k, i);
        assert forall|m: int| 0 <= m < k implies ys[m] == poly_eval(c, #[trigger] xs[m]) by {
            assert(bodies[m] == rabin_body(secret, k, xs[m]));
        }
        lemma_interpolation_recovers(c, xs, ys, k);
        assert(c[j] == secret[idx]);
    }
    assert(recovered =~= secret);
}

/// The shares of one sharing carry the identifiers `1, ..., n`, each once,
/// and each body is as long as the secret.
pub proof fn lemma_shamir_shares(
    shares: Seq<ShamirShare>,
    secret: Seq<u8>,
    rows: Seq<Seq<u8>>,
    n: nat,
    k: nat,
)
    requires
        valid_parameters(n, k),
        is_shamir_sharing(shares, secret, rows, n),
    ensures
        usable_points(shamir_ids(shares), n),
        forall|s: int| 0 <= s < n ==> (#[trigger] shares[s]).body@.len() == secret.len(),
{
}

/// The shares of one dispersal carry the identifiers `1, ..., n`, each once;
/// each records the length of the secret, and each body has one byte for
/// each `k` bytes of the secret, rounded up.
pub proof fn lemma_rabin_shares(shares: Seq<RabinShare>, secret: Seq<u8>, n: nat, k: nat)
    requires
        valid_parameters(n, k),
        is_rabin_sharing(shares, secret, n, k),
    ensures
        usable_points(rabin_ids(shares), n),
        forall|s: int|
            0 <= s < n ==> (#[trigger] shares[s]).body@.len() == chunk_count(secret.len(), k)
                && shares[s].length == secret.len(),
{
}

/// The shares of one sharing carry the identifiers `1, ..., n`, each once;
/// each records the length of the secret, holds 44 bytes of key material,
/// and has a body of one byte for each `k` bytes of the secret, rounded up.
pub proof fn lemma_krawczyk_shares(
    shares: Seq<KrawczykShare>,
    secret: Seq<u8>,
    key_nonce: Seq<u8>,
    rows: Seq<Seq<u8>>,
    n: nat,
    k: nat,
)
    requires
        valid_parameters(n, k),
        is_krawczyk_sharing(shares, secret, key_nonce, rows, n, k),
    ensures
        usable_points(krawczyk_ids(shares, n), n),
        forall|s: int|
            0 <= s < n ==> (#[trigger] shares[s]).body@.len() == chunk_count(secret.len(), k)
                && shares[s].length == secret.len() && shares[s].key@.len() == 44,
{
}

/// Round trip of Shamir's scheme: any `k` different shares of a sharing, in
/// any order and whatever follows them, are consistent and give the secret
/// back.
pub proof fn lemma_shamir_round_trip(
    secret: Seq<u8>,
    rows: Seq<Seq<u8>>,
    shares: Seq<ShamirShare>,
    picked: Seq<ShamirShare>,
    picks: Seq<int>,
    n: nat,
    k: nat,
)
    requires
        valid_parameters(n, k),
        randomness_fits(rows, secret.len(), k),
        is_shamir_sharing(shares, secret, rows, n),
        picked_from(picked, shares, picks, k),
    ensures
        shamir_consistent(picked, k),
        shamir_secret(shamir_ids(picked), shamir_bodies(picked), k, picked[0].body@.len())
            == secret,
{
    let xs = shamir_ids(picked);
    let bodies = shamir_bodies(picked);
    assert forall|m: int| 0 <= m < picked.len() implies xs[m] == picks[m] + 1 && bodies[m]
        == shamir_body(secret, rows, xs[m]) by {
        assert(picked[m] == shares[picks[m]]);
    }
    assert(distinct(xs, k)) by {
        assert forall|a: int, b: int| 0 <= a < b < k implies xs[a] != xs[b] by {
            assert(xs[a] == picks[a] + 1);
            assert(xs[b] == picks[b] + 1);
        }
    }
    assert(usable_points(xs, k)) by {
        assert forall|m: int| 0 <= m < k implies xs[m] != 0 by {
            assert(xs[m] == picks[m] + 1);
        }
    }
    assert forall|m: int| 0 <= m < picked.len() implies (#[trigger] picked[m]).body@.len()
        == picked[0].body@.len() by {
        assert(bodies[m] == shamir_body(secret, rows, xs[m]));
        assert(bodies[0] == shamir_body(secret, rows, xs[0]));
    }
    assert(bodies[0] == shamir_body(secret, rows, xs[0]));
    lemma_shamir_recovers(secret, rows, xs, bodies, k);
}

/// Round trip of Rabin's dispersal: any `k` different shares of a
/// dispersal, in any order and whatever follows them, are consistent and
/// give the secret back.
pub proof fn lemma_rabin_round_trip(
    secret: Seq<u8>,
    shares: Seq<RabinShare>,
    picked: Seq<RabinShare>,
    picks: Seq<int>,
    n: nat,
    k: nat,
)
    requires
        valid_parameters(n, k),
        is_rabin_sharing(shares, secret, n, k),
        picked_from(picked, shares, picks, k),
    ensures
        rabin_consistent(picked, k),
        rabin_decode(rabin_ids(picked), rabin_bodies(picked), k, picked[0].length as nat)
            == secret,
{
    let xs = rabin_ids(picked);
    let bodies = rabin_bodies(picked);
    assert forall|m: int| 0 <= m < picked.len() implies xs[m] == picks[m] + 1 && bodies[m]
        == rabin_body(secret, k, xs[m]) && (#[trigger] picked[m]).length == secret.len() by {
        assert(picked[m] == shares[picks[m]]);
    }
    assert(distinct(xs, k)) by {
        assert forall|a: int, b: int| 0 <= a < b < k implies xs[a] != xs[b] by {
            assert(xs[a] == picks[a] + 1);
            assert(xs[b] == picks[b] + 1);
        }
    }
    assert(usable_points(xs, k)) by {
        assert forall|m: int| 0 <= m < k implies xs[m] != 0 by {
            assert(xs[m] == picks[m] + 1);
        }
    }
    assert(picked[0].length == secret.len());
    assert(bodies[0] == rabin_body(secret, k, xs[0]));
    assert forall|m: int| 0 <= m < k implies (#[trigger] picked[m]).body@.len()
        == picked[0].body@.len() by {
        assert(bodies[m] == rabin_body(secret, k, xs[m]));
    }
    lemma_rabin_recovers(secret, xs, bodies, k);
}

/// Round trip of Krawczyk's scheme: any `k` different shares of a sharing,
/// in any order and whatever follows them, are consistent and give the
/// secret back.
pub proof fn lemma_krawczyk_round_trip(
    secret: Seq<u8>,
    key_nonce: Seq<u8>,
    rows: Seq<Seq<u8>>,
    shares: Seq<KrawczykShare>,
    picked: Seq<KrawczykShare>,
    picks: Seq<int>,
    n: nat,
    k: nat,
)
    requires
        valid_parameters(n, k),
        key_nonce.len() == 44,
        randomness_fits(rows, 44, k),
        is_krawczyk_sharing(shares, secret, key_nonce, rows, n, k),
        picked_from(picked, shares, picks, k),
    ensures
        krawczyk_consistent(picked, k),
        krawczyk_secret(picked, k) == secret,
{
    let xs = krawczyk_ids(picked, k);
    let keys = krawczyk_keys(picked, k);
    let bodies = krawczyk_bodies(picked, k);
    let cipher = krawczyk_ciphertext(secret, key_nonce);
    assert forall|m: int| 0 <= m < k implies xs[m] == picks[m] + 1 && #[trigger] keys[m]
        == shamir_body(key_nonce, rows, xs[m]) && bodies[m] == rabin_body(cipher, k, xs[m])
        && picked[m].length == secret.len() by {
        assert(picked[m] == shares[picks[m]]);
    }
    assert(distinct(xs, k)) by {
        assert forall|a: int, b: int| 0 <= a < b < k implies xs[a] != xs[b] by {
            assert(xs[a] == picks[a] + 1);
            assert(xs[b] == picks[b] + 1);
        }
    }
    assert(usable_points(xs, k)) by {
        assert forall|m: int| 0 <= m < k implies xs[m] != 0 by {
            assert(xs[m] == picks[m] + 1);
        }
    }
    assert(keys[0] == shamir_body(key_nonce, rows, xs[0]));
    assert(picked[0].length == secret.len());
    assert(bodies[0] == rabin_body(cipher, k, xs[0]));
    assert forall|m: int| 0 <= m < k implies (#[trigger] picked[m]).length == picked[0].length
        && picked[m].body@.len() == picked[0].body@.len() by {
        assert(keys[m] == shamir_body(key_nonce, rows, xs[m]));
        assert(bodies[m] == rabin_body(cipher, k, xs[m]));
    }
    assert forall|m: int| 0 <= m < k implies #[trigger] bodies[m] == rabin_body(
        cipher,
        k,
        xs[m],
    ) by {
        assert(keys[m] == shamir_body(key_nonce, rows, xs[m]));
    }
    lemma_shamir_recovers(key_nonce, rows, xs, keys, k);
    lemma_rabin_recovers(cipher, xs, bodies, k);
    assert(krawczyk_key_nonce(picked, k) == key_nonce);
    assert(krawczyk_dispersed(picked, k) == cipher);
}

/// Points that are pairwise different stay so in another order.
pub proof fn lemma_distinct_permuted(xs: Seq<u8>, xs2: Seq<u8>, perm: Seq<int>, k: nat)
    requires
        distinct(xs, k),
        forall|m: int| 0 <= m < k ==> 0 <= #[trigger] perm[m] < k && xs2[m] == xs[perm[m]],
        forall|a: int, b: int| 0 <= a < b < k ==> perm[a] != perm[b],
    ensures
        distinct(xs2, k),
{
    assert forall|a: int, b: int| 0 <= a < b < k implies xs2[a] != xs2[b] by {
        let pa = perm[a];
        let pb = perm[b];
        if pa < pb {
            assert(xs[pa] != xs[pb]);
        } else {
            assert(xs[pb] != xs[pa]);
        }
    }
}

/// The interpolating polynomial does not depend on the order of the points.
pub proof fn lemma_interpolation_permuted(
    xs: Seq<u8>,
    ys: Seq<u8>,
    xs2: Seq<u8>,
    ys2: Seq<u8>,
    perm: Seq<int>,
    k: nat,
)
    requires
        distinct(xs, k),
        forall|m: int|
            0 <= m < k ==> 0 <= #[trigger] perm[m] < k && xs2[m] == xs[perm[m]] && ys2[m]
                == ys[perm[m]],
        forall|a: int, b: int| 0 <= a < b < k ==> perm[a] != perm[b],
    ensures
        distinct(xs2, k),
        interpolation(xs2, ys2, k) == interpolation(xs, ys, k),
{
    let p = interpolation(xs, ys, k);
    lemma_distinct_permuted(xs, xs2, perm, k);
    assert forall|m: int| 0 <= m < k implies ys2[m] == poly_eval(p, #[trigger] xs2[m]) by {
        lemma_interpolation_hits(xs, ys, k, perm[m]);
    }
    if k > 0 {
        lemma_interpolation_hits(xs, ys, k, 0);
    } else {
        assert(p.len() == 0);
    }
    lemma_interpolation_recovers(p, xs2, ys2, k);
}

/// The secret that Shamir's interpolation gives does not depend on the
/// order of the `k` identifiers and bodies.
pub proof fn lemma_shamir_secret_permuted(
    xs: Seq<u8>,
    bodies: Seq<Seq<u8>>,
    xs2: Seq<u8>,
    bodies2: Seq<Seq<u8>>,
    perm: Seq<int>,
    k: nat,
    len: nat,
)
    requires
        k >= 1,
        distinct(xs, k),
        forall|m: int|
            0 <= m < k ==> 0 <= #[trigger] perm[m] < k && xs2[m] == xs[perm[m]] && bodies2[m]
                == bodies[perm[m]],
        forall|a: int, b: int| 0 <= a < b < k ==> perm[a] != perm[b],
    ensures
        shamir_secret(xs2, bodies2, k, len) == shamir_secret(xs, bodies, k, len),
{
    let one = shamir_secret(xs, bodies, k, len);
    let two = shamir_secret(xs2, bodies2, k, len);
    assert forall|i: int| 0 <= i < len implies one[i] == two[i] by {
        let ys = values_at(bodies, k, i);
        let ys2 = values_at(bodies2, k, i);
        assert forall|m: int| 0 <= m < k implies 0 <= #[trigger] perm[m] < k && xs2[m]
            == xs[perm[m]] && ys2[m] == ys[perm[m]] by {}
        lemma_interpolation_permuted(xs, ys, xs2, ys2, perm, k);
        lemma_weights_give_constant(xs, ys, k);
        lemma_weights_give_constant(xs2, ys2, k);
    }
    assert(one =~= two);
}

/// The secret that Rabin's decoding gives does not depend on the order of
/// the `k` identifiers and bodies.
pub proof fn lemma_rabin_decode_permuted(
    xs: Seq<u8>,
    bodies: Seq<Seq<u8>>,
    xs2: Seq<u8>,
    bodies2: Seq<Seq<u8>>,
    perm: Seq<int>,
    k: nat,
    len: nat,
)
    requires
        k >= 1,
        distinct(xs, k),
        forall|m: int|
            0 <= m < k ==> 0 <= #[trigger] perm[m] < k && xs2[m] == xs[perm[m]] && bodies2[m]
                == bodies[perm[m]],
        forall|a: int, b: int| 0 <= a < b < k ==> perm[a] != perm[b],
    ensures
        rabin_decode(xs2, bodies2, k, len) == rabin_decode(xs, bodies, k, len),
{
    let one = rabin_decode(xs, bodies, k, len);
    let two = rabin_decode(xs2, bodies2, k, len);
    assert forall|idx: int| 0 <= idx < len implies one[idx] == two[idx] by {
        let i = idx / (k as int);
        let ys = values_at(bodies, k, i);
        let ys2 = values_at(bodies2, k, i);
        assert forall|m: int| 0 <= m < k implies 0 <= #[trigger] perm[m] < k && xs2[m]
            == xs[perm[m]] && ys2[m] == ys[perm[m]] by {}
        lemma_interpolation_permuted(xs, ys, xs2, ys2, perm, k);
    }
    assert(one =~= two);
}

/// Shamir's scheme does not mind the order: `k` consistent shares, in
/// another order, are consistent and give the same secret.
pub proof fn lemma_shamir_order(
    first: Seq<ShamirShare>,
    second: Seq<ShamirShare>,
    perm: Seq<int>,
    k: nat,
)
    requires
        k >= 1,
        permuted(first, second, perm, k),
        shamir_consistent(first, k),
    ensures
        shamir_consistent(second, k),
        shamir_secret(shamir_ids(second), shamir_bodies(second), k, second[0].body@.len())
            == shamir_secret(shamir_ids(first), shamir_bodies(first), k, first[0].body@.len()),
{
    let xs = shamir_ids(first);
    let xs2 = shamir_ids(second);
    let bodies = shamir_bodies(first);
    let bodies2 = shamir_bodies(second);
    assert forall|m: int| 0 <= m < k implies 0 <= #[trigger] perm[m] < k && xs2[m]
        == xs[perm[m]] && bodies2[m] == bodies[perm[m]] by {
        assert(second[m] == first[perm[m]]);
    }
    lemma_distinct_permuted(xs, xs2, perm, k);
    assert forall|m: int| 0 <= m < k implies xs2[m] != 0 && (#[trigger] second[m]).body@.len()
        == second[0].body@.len() by {
        assert(second[m] == first[perm[m]]);
        assert(second[0] == first[perm[0]]);
        assert(xs[perm[m]] != 0);
        assert(first[perm[m]].body@.len() == first[0].body@.len());
        assert(first[perm[0]].body@.len() == first[0].body@.len());
    }
    assert(second[0] == first[perm[0]]);
    assert(first[perm[0]].body@.len() == first[0].body@.len());
    lemma_shamir_secret_permuted(xs, bodies, xs2, bodies2, perm, k, first[0].body@.len());
}

/// Rabin's dispersal does not mind the order: `k` consistent shares, in
/// another order, are consistent and give the same secret.
pub proof fn lemma_rabin_order(
    first: Seq<RabinShare>,
    second: Seq<RabinShare>,
    perm: Seq<int>,
    k: nat,
)
    requires
        k >= 1,
        permuted(first, second, perm, k),
        rabin_consistent(first, k),
    ensures
        rabin_consistent(second, k),
        rabin_decode(rabin_ids(second), rabin_bodies(second), k, second[0].length as nat)
            == rabin_decode(rabin_ids(first), rabin_bodies(first), k, first[0].length as nat),
{
    let xs = rabin_ids(first);
    let xs2 = rabin_ids(second);
    let bodies = rabin_bodies(first);
    let bodies2 = rabin_bodies(second);
    assert forall|m: int| 0 <= m < k implies 0 <= #[trigger] perm[m] < k && xs2[m]
        == xs[perm[m]] && bodies2[m] == bodies[perm[m]] by {
        assert(second[m] == first[perm[m]]);
    }
    lemma_distinct_permuted(xs, xs2, perm, k);
    assert(second[0] == first[perm[0]]);
    assert(first[perm[0]].length == first[0].length);
    assert(first[perm[0]].body@.len() == first[0].body@.len());
    assert forall|m: int| 0 <= m < k implies xs2[m] != 0 && (#[trigger] second[m]).length
        == second[0].length && second[m].body@.len() == second[0].body@.len() by {
        assert(second[m] == first[perm[m]]);
        assert(xs[perm[m]] != 0);
        assert(first[perm[m]].length == first[0].length);
        assert(first[perm[m]].body@.len() == first[0].body@.len());
    }
    lemma_rabin_decode_permuted(xs, bodies, xs2, bodies2, perm, k, first[0].length as nat);
}

/// Krawczyk's scheme does not mind the order: `k` consistent shares, in
/// another order, are consistent and give the same secret.
pub proof fn lemma_krawczyk_order(
    first: Seq<KrawczykShare>,
    second: Seq<KrawczykShare>,
    perm: Seq<int>,
    k: nat,
)
    requires
        k >= 1,
        permuted(first, second, perm, k),
        krawczyk_consistent(first, k),
    ensures
        krawczyk_consistent(second, k),
        krawczyk_secret(second, k) == krawczyk_secret(first, k),
{
    let xs = krawczyk_ids(first, k);
    let xs2 = krawczyk_ids(second, k);
    let keys = krawczyk_keys(first, k);
    let keys2 = krawczyk_keys(second, k);
    let bodies = krawczyk_bodies(first, k);
    let bodies2 = krawczyk_bodies(second, k);
    assert forall|m: int| 0 <= m < k implies 0 <= #[trigger] perm[m] < k && xs2[m]
        == xs[perm[m]] && bodies2[m] == bodies[perm[m]] && keys2[m] == keys[perm[m]] by {
        assert(second[m] == first[perm[m]]);
    }
    lemma_distinct_permuted(xs, xs2, perm, k);
    assert(second[0] == first[perm[0]]);
    assert(first[perm[0]].length == first[0].length);
    assert(first[perm[0]].body@.len() == first[0].body@.len());
    assert forall|m: int| 0 <= m < k implies xs2[m] != 0 && (#[trigger] second[m]).length
        == second[0].length && second[m].body@.len() == second[0].body@.len() by {
        assert(second[m] == first[perm[m]]);
        assert(xs[perm[m]] != 0);
        assert(first[perm[m]].length == first[0].length);
        assert(first[perm[m]].body@.len() == first[0].body@.len());
    }
    lemma_shamir_secret_permuted(xs, keys, xs2, keys2, perm, k, 44);
    lemma_rabin_decode_permuted(xs, bodies, xs2, bodies2, perm, k, first[0].length as nat);
}

} // verus!
