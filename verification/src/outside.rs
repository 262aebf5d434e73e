//! What the library takes from the crates it calls: the source of random
//! bytes of the `rand` crate and the ChaCha20 stream cipher of the
//! `chacha20` crate. The contracts in this file are taken on trust.

use vstd::prelude::*;
use chacha20::ChaCha20;
use rand::rngs::ThreadRng;
use rand::Rng;
use std::cell::RefCell;
use stream_cipher::{InvalidKeyNonceLength, NewStreamCipher, StreamCipher};

verus! {

/// `std::cell::RefCell`, which holds the generator; nothing inside it is
/// seen.
#[verifier::external_type_specification]
#[verifier::external_body]
#[verifier::reject_recursive_types(T)]
pub struct ExRefCell<T: ?Sized>(RefCell<T>);

/// The error of the `rand` crate, which a generator reports.
#[verifier::external_type_specification]
#[verifier::external_body]
pub struct ExRandError(rand::Error);

/// The error of the `stream-cipher` crate for a key or nonce of the wrong
/// length.
#[verifier::external_type_specification]
#[verifier::external_body]
pub struct ExInvalidKeyNonceLength(InvalidKeyNonceLength);

/// The generator of the `rand` crate that each thread has for itself.
#[verifier::external_type_specification]
#[verifier::external_body]
pub struct ExThreadRng(ThreadRng);

/// Wraps `RefCell::new`: the generator goes behind a cell, so that shares
/// can be made through a shared reference. Nothing is claimed of the cell.
#[verifier::external_body]
pub(crate) fn new_cell<R: Rng>(rng: R) -> (cell: RefCell<R>) {
    RefCell::new(rng)
}

/// Wraps `Rng::try_fill` of the `rand` crate, which overwrites the buffer
/// with random bytes or reports the generator's error. The length of the
/// buffer stays; of the bytes nothing is claimed.
#[verifier::external_body]
pub(crate) fn fill_random<R: Rng>(
    rng: &RefCell<R>,
    buf: &mut Vec<u8>,
) -> (r: Result<(), rand::Error>)
    ensures
        final(buf)@.len() == old(buf)@.len(),
{
    rng.borrow_mut().try_fill(&mut buf[..])
}

/// The longest text, in bytes, that one key and nonce of ChaCha20 can take:
/// the cipher counts blocks of 64 bytes in 32 bits.
pub const KEYSTREAM_LIMIT: u64 = 0x3f_ffff_ffc0;

/// What ChaCha20, set up with the given key and nonce, turns a plaintext
/// into.
pub uninterp spec fn chacha20_encrypted(key: Seq<u8>, nonce: Seq<u8>, data: Seq<u8>) -> Seq<u8>;

/// What ChaCha20, set up with the given key and nonce, turns a ciphertext
/// into.
pub uninterp spec fn chacha20_decrypted(key: Seq<u8>, nonce: Seq<u8>, data: Seq<u8>) -> Seq<u8>;

/// ChaCha20 takes a key of 32 bytes and a nonce of 12.
pub open spec fn chacha20_accepts(key: Seq<u8>, nonce: Seq<u8>) -> bool {
    key.len() == 32 && nonce.len() == 12
}

/// Wraps `NewStreamCipher::new_var` and `StreamCipher::encrypt` on the
/// `ChaCha20` of the `chacha20` crate. The cipher is set up whenever the key
/// has 32 bytes and the nonce 12, and not otherwise. It adds its keystream
/// to the data byte by byte, so the ciphertext is as long as the plaintext,
/// is fixed by key, nonce and plaintext, and decrypts to the plaintext again
/// under the same key and nonce. Texts beyond the limit of the keystream
/// are left out.
#[verifier::external_body]
pub(crate) fn chacha20_encrypt(
    key: &[u8],
    nonce: &[u8],
    data: Vec<u8>,
) -> (r: Result<Vec<u8>, InvalidKeyNonceLength>)
    requires
        data@.len() <= KEYSTREAM_LIMIT,
    ensures
        r is Ok <==> chacha20_accepts(key@, nonce@),
        r matches Ok(out) ==> out@ == chacha20_encrypted(key@, nonce@, data@),
        r matches Ok(out) ==> out@.len() == data@.len(),
        r matches Ok(out) ==> chacha20_decrypted(key@, nonce@, out@) == data@,
{
    let mut cipher = ChaCha20::new_var(key, nonce)?;
    let mut out = data;
    cipher.encrypt(&mut out);
    Ok(out)
}

/// Wraps `NewStreamCipher::new_var` and `StreamCipher::decrypt` on the
/// `ChaCha20` of the `chacha20` crate. The cipher is set up whenever the key
/// has 32 bytes and the nonce 12, and not otherwise. The plaintext is as
/// long as the ciphertext and is fixed by key, nonce and ciphertext. Texts
/// beyond the limit of the keystream are left out.
#[verifier::external_body]
pub(crate) fn chacha20_decrypt(
    key: &[u8],
    nonce: &[u8],
    data: Vec<u8>,
) -> (r: Result<Vec<u8>, InvalidKeyNonceLength>)
    requires
        data@.len() <= KEYSTREAM_LIMIT,
    ensures
        r is Ok <==> chacha20_accepts(key@, nonce@),
        r matches Ok(out) ==> out@ == chacha20_decrypted(key@, nonce@, data@),
        r matches Ok(out) ==> out@.len() == data@.len(),
{
    let mut cipher = ChaCha20::new_var(key, nonce)?;
    let mut out = data;
    cipher.decrypt(&mut out);
    Ok(out)
}

} // verus!
