use chacha20::ChaCha20;
use rand::rngs::mock::StepRng;
use sharing::error::SharingError;
use sharing::ids::RabinInformationDispersal;
use sharing::secret::{KrawczykSecretSharing, ShamirSecretSharing};
use sharing::share::{KrawczykShare, RabinShare, ShamirShare};
use sharing::Sharing;
use stream_cipher::{NewStreamCipher, SyncStreamCipher};

fn pick(shares: &[KrawczykShare], which: &[usize]) -> Vec<KrawczykShare> {
    which.iter().map(|i| shares[*i].clone()).collect()
}

fn key_nonce() -> [u8; 44] {
    let mut kn = [0u8; 44];
    for (i, b) in kn.iter_mut().enumerate() {
        *b = (3 * i + 1) as u8;
    }
    kn
}

fn encrypted(kn: &[u8; 44], data: &[u8]) -> Vec<u8> {
    let mut cipher = ChaCha20::new_var(&kn[0..32], &kn[32..44]).unwrap();
    let mut out = data.to_vec();
    cipher.apply_keystream(&mut out);
    out
}

#[test]
fn krawczyk_hello_world_three_of_five() {
    let secret = b"hello world".to_vec();
    let sharer = KrawczykSecretSharing::new(5, 3, rand::thread_rng()).unwrap();
    let shares = sharer.share(secret.clone()).unwrap();
    assert_eq!(shares.len(), 5);
    for (i, s) in shares.iter().enumerate() {
        assert_eq!(s.id as usize, i + 1);
        assert_eq!(s.length, 11);
        assert_eq!(s.key.len(), 44);
        assert_eq!(s.body.len(), 4);
    }
    for a in 0..5 {
        for b in 0..5 {
            for c in 0..5 {
                if a != b && b != c && a != c {
                    assert_eq!(
                        sharer.recontruct(pick(&shares, &[a, b, c])),
                        Ok(secret.clone())
                    );
                }
            }
        }
    }
}

#[test]
fn krawczyk_rfc_8439_keystream() {
    // the example of section 2.4.2 of RFC 8439 starts its block counter at
    // one; here the counter starts at zero, so the text is put behind one
    // block of 64 bytes
    let mut kn = [0u8; 44];
    for i in 0..32 {
        kn[i] = i as u8;
    }
    kn[32 + 7] = 0x4a;
    let text = b"Ladies and Gentlemen of the class of '99";
    let mut data = vec![0u8; 64];
    data.extend_from_slice(text);
    let sharer = KrawczykSecretSharing::new(1, 1, StepRng::new(0, 0)).unwrap();
    let shares = sharer.share_with(&data, &kn, &vec![vec![]; 44]).unwrap();
    assert_eq!(
        &shares[0].body[64..80],
        &[
            0x6e, 0x2e, 0x35, 0x9a, 0x25, 0x68, 0xf9, 0x80, 0x41, 0xba, 0x07, 0x28, 0xdd, 0x0d,
            0x69, 0x81
        ]
    );
    assert_eq!(sharer.recontruct(shares), Ok(data));
}

#[test]
fn krawczyk_shares_for_given_key() {
    let kn = key_nonce();
    let data: Vec<u8> = (0..100u8).collect();
    let cipher = encrypted(&kn, &data);
    assert_ne!(cipher, data);
    // with threshold one the body is the ciphertext and the key part is the
    // key and nonce
    let sharer = KrawczykSecretSharing::new(2, 1, StepRng::new(0, 0)).unwrap();
    let shares = sharer.share_with(&data, &kn, &vec![vec![]; 44]).unwrap();
    assert_eq!(shares.len(), 2);
    for s in shares.iter() {
        assert_eq!(s.body, cipher);
        assert_eq!(s.key, kn);
        assert_eq!(s.length, 100);
    }
    assert_eq!(sharer.recontruct(pick(&shares, &[1])), Ok(data.clone()));
    // with a larger threshold the parts are those of the two other schemes
    let rows: Vec<Vec<u8>> = (0..44u8).map(|i| vec![i, 100 + i]).collect();
    let sharer = KrawczykSecretSharing::new(4, 3, StepRng::new(0, 0)).unwrap();
    let shares = sharer.share_with(&data, &kn, &rows).unwrap();
    let bodies = RabinInformationDispersal::new(4, 3).unwrap().share(cipher).unwrap();
    let keys = ShamirSecretSharing::new(4, 3, StepRng::new(0, 0)).unwrap()
        .share_with(&kn.to_vec(), &rows)
        .unwrap();
    for i in 0..4 {
        assert_eq!(shares[i].id, bodies[i].id);
        assert_eq!(shares[i].body, bodies[i].body);
        assert_eq!(shares[i].key.to_vec(), keys[i].body);
        assert_eq!(shares[i].length, 100);
    }
    assert_eq!(sharer.recontruct(pick(&shares, &[3, 0, 2])), Ok(data));
}

#[test]
fn krawczyk_reconstruction_decrypts() {
    // shares made by hand from the two other schemes
    let kn = key_nonce();
    let data = b"attack at dawn".to_vec();
    let cipher = encrypted(&kn, &data);
    let rows: Vec<Vec<u8>> = (0..44u8).map(|i| vec![200 - i]).collect();
    let bodies: Vec<RabinShare> = RabinInformationDispersal::new(3, 2).unwrap().share(cipher).unwrap();
    let keys: Vec<ShamirShare> = ShamirSecretSharing::new(3, 2, StepRng::new(0, 0)).unwrap()
        .share_with(&kn.to_vec(), &rows)
        .unwrap();
    let mut given = Vec::new();
    for i in [2usize, 0] {
        let mut key = [0u8; 44];
        key.copy_from_slice(&keys[i].body);
        given.push(KrawczykShare {
            id: bodies[i].id,
            length: data.len(),
            key,
            body: bodies[i].body.clone(),
        });
    }
    let sharer = KrawczykSecretSharing::new(3, 2, StepRng::new(0, 0)).unwrap();
    assert_eq!(sharer.recontruct(given), Ok(data));
}

#[test]
fn krawczyk_empty_secret() {
    let sharer = KrawczykSecretSharing::new(3, 2, rand::thread_rng()).unwrap();
    let shares = sharer.share(vec![]).unwrap();
    assert_eq!(shares.len(), 3);
    for s in shares.iter() {
        assert!(s.body.is_empty());
        assert_eq!(s.length, 0);
    }
    assert_eq!(sharer.recontruct(pick(&shares, &[1, 2])), Ok(vec![]));
}

#[test]
fn krawczyk_every_quorum_of_every_size() {
    let secret: Vec<u8> = (0..50u8).map(|i| i.wrapping_mul(91).wrapping_add(5)).collect();
    for n in 1..=5u8 {
        for k in 1..=n {
            let sharer = KrawczykSecretSharing::new(n, k, rand::thread_rng()).unwrap();
            let shares = sharer.share(secret.clone()).unwrap();
            for s in shares.iter() {
                assert_eq!(s.body.len(), (secret.len() + k as usize - 1) / k as usize);
            }
            for mask in 0u32..(1 << n) {
                if mask.count_ones() == k as u32 {
                    let mut which: Vec<usize> =
                        (0..n as usize).filter(|i| mask & (1 << i) != 0).collect();
                    assert_eq!(sharer.recontruct(pick(&shares, &which)), Ok(secret.clone()));
                    which.reverse();
                    assert_eq!(sharer.recontruct(pick(&shares, &which)), Ok(secret.clone()));
                }
            }
        }
    }
}

#[test]
fn krawczyk_fresh_keys() {
    let sharer = KrawczykSecretSharing::new(2, 1, rand::thread_rng()).unwrap();
    let one = sharer.share(vec![0; 32]).unwrap();
    let two = sharer.share(vec![0; 32]).unwrap();
    assert_ne!(one[0].key, two[0].key);
    assert_ne!(one[0].body, two[0].body);
    assert_ne!(one[0].body, vec![0; 32]);
}

#[test]
fn krawczyk_errors() {
    let sharer = KrawczykSecretSharing::new(4, 3, rand::thread_rng()).unwrap();
    let shares = sharer.share(vec![1, 2, 3, 4, 5]).unwrap();
    assert_eq!(
        sharer.recontruct(pick(&shares, &[0, 1])),
        Err(SharingError::InsufficientShares)
    );
    assert_eq!(
        sharer.recontruct(pick(&shares, &[0, 1, 1])),
        Err(SharingError::InconsistentShares)
    );
    let mut given = pick(&shares, &[0, 1, 2]);
    given[0].id = 0;
    assert_eq!(sharer.recontruct(given), Err(SharingError::InconsistentShares));
    let mut given = pick(&shares, &[0, 1, 2]);
    given[1].length = 4;
    assert_eq!(sharer.recontruct(given), Err(SharingError::InconsistentShares));
    let mut given = pick(&shares, &[0, 1, 2]);
    given[2].body.push(0);
    assert_eq!(sharer.recontruct(given), Err(SharingError::InconsistentShares));
    let kn = key_nonce();
    assert_eq!(
        sharer.share_with(&vec![1, 2], &kn, &vec![vec![0, 0]; 43]).err(),
        Some(SharingError::InvalidParameters)
    );
    assert_eq!(
        sharer.share_with(&vec![1, 2], &kn, &vec![vec![0]; 44]).err(),
        Some(SharingError::InvalidParameters)
    );
}

#[test]
fn krawczyk_invalid_parameters() {
    assert!(KrawczykSecretSharing::new(5, 3, rand::thread_rng()).is_ok());
    for (n, k) in [(0u8, 0u8), (3, 0), (2, 3), (0, 1)] {
        assert_eq!(
            KrawczykSecretSharing::new(n, k, rand::thread_rng()).err(),
            Some(SharingError::InvalidParameters)
        );
    }
    let sharer = KrawczykSecretSharing::new(3, 2, rand::thread_rng()).unwrap();
    assert_eq!(sharer.share(vec![1, 2, 3]).unwrap().len(), 3);
}

#[test]
fn krawczyk_cuts_off_what_the_length_leaves_out() {
    let sharer = KrawczykSecretSharing::new(3, 2, rand::thread_rng()).unwrap();
    let shares = sharer.share(vec![9, 8, 7, 6, 5]).unwrap();
    let mut given = pick(&shares, &[2, 0]);
    for s in given.iter_mut() {
        s.length = 2;
    }
    assert_eq!(sharer.recontruct(given), Ok(vec![9, 8]));
    let mut given = pick(&shares, &[2, 0]);
    for s in given.iter_mut() {
        s.length = 7;
    }
    assert_eq!(sharer.recontruct(given), Err(SharingError::InconsistentShares));
}
