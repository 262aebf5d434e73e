use sharing::error::SharingError;
use sharing::share::Share;
use sharing::{KrawczykSecretSharing, RabinInformationDispersal, ShamirSecretSharing, Sharing};

/// Shares `secret` and puts it together again from the last `k` shares, in
/// reverse.
fn there_and_back<S: Sharing>(
    scheme: &S,
    secret: &[u8],
    k: usize,
) -> Result<Vec<u8>, SharingError> {
    let mut shares = scheme.share(secret.to_vec())?;
    shares.reverse();
    shares.truncate(k);
    scheme.recontruct(shares)
}

fn first_sizes<S: Sharing>(scheme: &S, secret: &[u8]) -> Vec<usize> {
    scheme
        .share(secret.to_vec())
        .unwrap()
        .iter()
        .map(|s| s.size())
        .collect()
}

#[test]
fn one_surface_for_the_three_schemes() {
    let secret = b"one surface for the three schemes".to_vec();
    let rabin = RabinInformationDispersal::new(6, 4).unwrap();
    let shamir = ShamirSecretSharing::new(6, 4, rand::thread_rng()).unwrap();
    let krawczyk = KrawczykSecretSharing::new(6, 4, rand::thread_rng()).unwrap();
    assert_eq!(there_and_back(&rabin, &secret, 4), Ok(secret.clone()));
    assert_eq!(there_and_back(&shamir, &secret, 4), Ok(secret.clone()));
    assert_eq!(there_and_back(&krawczyk, &secret, 4), Ok(secret.clone()));
    assert_eq!(there_and_back(&rabin, &secret, 3), Err(SharingError::InsufficientShares));
    assert_eq!(there_and_back(&shamir, &secret, 3), Err(SharingError::InsufficientShares));
    assert_eq!(there_and_back(&krawczyk, &secret, 3), Err(SharingError::InsufficientShares));
    assert_eq!(first_sizes(&rabin, &secret), vec![secret.len(); 6]);
    assert_eq!(first_sizes(&shamir, &secret), vec![secret.len(); 6]);
    assert_eq!(first_sizes(&krawczyk, &secret), vec![secret.len(); 6]);
}

#[test]
fn one_refusal_for_the_three_schemes() {
    let wrong = Some(SharingError::InvalidParameters);
    assert_eq!(RabinInformationDispersal::new(2, 3).err(), wrong);
    assert_eq!(ShamirSecretSharing::new(2, 3, rand::thread_rng()).err(), wrong);
    assert_eq!(KrawczykSecretSharing::new(2, 3, rand::thread_rng()).err(), wrong);
}

#[test]
fn shares_of_a_single_byte_look_uniform() {
    // one share of a fixed secret, many times over: each value of a byte
    // should come about as often as any other
    let sharer = ShamirSecretSharing::new(3, 2, rand::thread_rng()).unwrap();
    let rounds = 400usize;
    let mut counts = [0f64; 256];
    for _ in 0..rounds {
        let shares = sharer.share(vec![0x5a; 128]).unwrap();
        for b in shares[1].body.iter() {
            counts[*b as usize] += 1.0;
        }
    }
    let expected = (rounds * 128) as f64 / 256.0;
    let chi2: f64 = counts.iter().map(|c| (c - expected) * (c - expected) / expected).sum();
    // 255 degrees of freedom: mean 255, standard deviation about 22.6
    assert!(chi2 < 420.0, "chi squared {}", chi2);
    assert!(chi2 > 120.0, "chi squared {}", chi2);
}
