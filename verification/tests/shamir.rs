use rand::rngs::mock::StepRng;
use rand::{Error, RngCore};
use sharing::error::SharingError;
use sharing::field::{add, mul};
use sharing::secret::{interpolation_weights, ShamirSecretSharing};
use sharing::share::ShamirShare;

/// A generator that always reports an error.
struct Broken;

impl RngCore for Broken {
    fn next_u32(&mut self) -> u32 {
        0
    }

    fn next_u64(&mut self) -> u64 {
        0
    }

    fn fill_bytes(&mut self, dest: &mut [u8]) {
        for b in dest.iter_mut() {
            *b = 0;
        }
    }

    fn try_fill_bytes(&mut self, _dest: &mut [u8]) -> Result<(), Error> {
        Err(Error::new("no entropy"))
    }
}

fn pick(shares: &[ShamirShare], which: &[usize]) -> Vec<ShamirShare> {
    which.iter().map(|i| shares[*i].clone()).collect()
}

#[test]
fn shamir_five_bytes_three_of_five() {
    let secret = vec![1u8, 2, 3, 4, 5];
    let sharer = ShamirSecretSharing::new(5, 3, rand::thread_rng()).unwrap();
    let shares = sharer.share(secret.clone()).unwrap();
    assert_eq!(shares.len(), 5);
    for (i, s) in shares.iter().enumerate() {
        assert_eq!(s.id as usize, i + 1);
        assert_eq!(s.body.len(), 5);
    }
    for a in 0..5 {
        for b in 0..5 {
            for c in 0..5 {
                if a != b && b != c && a != c {
                    assert_eq!(
                        sharer.recontruct(pick(&shares, &[a, b, c])),
                        Ok(secret.clone())
                    );
                }
            }
            if a != b {
                assert_eq!(
                    sharer.recontruct(pick(&shares, &[a, b])),
                    Err(SharingError::InsufficientShares)
                );
            }
        }
    }
    assert_eq!(sharer.recontruct(shares[1..=3].to_vec()), Ok(secret));
}

#[test]
fn shamir_threshold_one() {
    let secret = vec![42u8, 42];
    let sharer = ShamirSecretSharing::new(3, 1, rand::thread_rng()).unwrap();
    let shares = sharer.share(secret.clone()).unwrap();
    assert_eq!(shares.len(), 3);
    for i in 0..3 {
        assert_eq!(shares[i].body, secret);
        assert_eq!(sharer.recontruct(pick(&shares, &[i])), Ok(secret.clone()));
    }
}

#[test]
fn shamir_empty_secret() {
    let sharer = ShamirSecretSharing::new(3, 2, rand::thread_rng()).unwrap();
    let shares = sharer.share(vec![]).unwrap();
    assert_eq!(shares.len(), 3);
    for s in shares.iter() {
        assert!(s.body.is_empty());
    }
    assert_eq!(sharer.recontruct(pick(&shares, &[0, 2])), Ok(vec![]));
}

#[test]
fn shamir_shares_for_given_randomness() {
    let sharer = ShamirSecretSharing::new(3, 3, StepRng::new(0, 0)).unwrap();
    // polynomials 7 + 2x + 3x^2 and 9 + x^2
    let shares = sharer
        .share_with(&vec![7, 9], &vec![vec![2, 3], vec![0, 1]])
        .unwrap();
    assert_eq!(shares.len(), 3);
    for (i, s) in shares.iter().enumerate() {
        let x = (i + 1) as u8;
        assert_eq!(s.id, x);
        let first = add(add(7, mul(2, x)), mul(3, mul(x, x)));
        let second = add(9, mul(x, x));
        assert_eq!(s.body, vec![first, second]);
    }
    assert_eq!(shares[0].body, vec![7 ^ 2 ^ 3, 9 ^ 1]);
    assert_eq!(shares[1].body, vec![7 ^ 4 ^ 12, 9 ^ 4]);
    assert_eq!(sharer.recontruct(shares), Ok(vec![7, 9]));
}

#[test]
fn shamir_randomness_of_the_wrong_shape() {
    let sharer = ShamirSecretSharing::new(3, 2, StepRng::new(0, 0)).unwrap();
    assert_eq!(
        sharer.share_with(&vec![7, 9], &vec![vec![1]]).err(),
        Some(SharingError::InvalidParameters)
    );
    assert_eq!(
        sharer.share_with(&vec![7, 9], &vec![vec![1], vec![1, 2]]).err(),
        Some(SharingError::InvalidParameters)
    );
    assert_eq!(
        sharer.share_with(&vec![7, 9], &vec![vec![1], vec![]]).err(),
        Some(SharingError::InvalidParameters)
    );
    assert!(sharer.share_with(&vec![7, 9], &vec![vec![1], vec![2]]).is_ok());
}

#[test]
fn shamir_uses_the_generator() {
    // a generator that counts up from one: no byte it gives is zero at first
    let sharer = ShamirSecretSharing::new(2, 2, StepRng::new(0x0101_0101_0101_0101, 0)).unwrap();
    let shares = sharer.share(vec![0; 8]).unwrap();
    // the polynomial of each byte is 0 + 1 * x
    assert_eq!(shares[0].body, vec![1; 8]);
    assert_eq!(shares[1].body, vec![2; 8]);
    let sharer = ShamirSecretSharing::new(4, 2, rand::thread_rng()).unwrap();
    let secret = vec![0u8; 64];
    let shares = sharer.share(secret.clone()).unwrap();
    assert!(shares[0].body.iter().any(|b| *b != 0));
    assert_eq!(sharer.recontruct(pick(&shares, &[3, 1])), Ok(secret));
}

#[test]
fn shamir_generator_failure() {
    let sharer = ShamirSecretSharing::new(3, 2, Broken).unwrap();
    assert_eq!(sharer.share(vec![1, 2, 3]).err(), Some(SharingError::RngFailure));
    // nothing is drawn for an empty secret
    assert_eq!(sharer.share(vec![]).unwrap().len(), 3);
    // nor with a threshold of one
    let sharer = ShamirSecretSharing::new(3, 1, Broken).unwrap();
    let shares = sharer.share(vec![1, 2, 3]).unwrap();
    for s in shares.iter() {
        assert_eq!(s.body, vec![1, 2, 3]);
    }
}

#[test]
fn shamir_every_quorum_of_every_size() {
    let secret: Vec<u8> = (0..17u8).map(|i| i.wrapping_mul(29).wrapping_add(3)).collect();
    for n in 1..=6u8 {
        for k in 1..=n {
            let sharer = ShamirSecretSharing::new(n, k, rand::thread_rng()).unwrap();
            let shares = sharer.share(secret.clone()).unwrap();
            for s in shares.iter() {
                assert_eq!(s.body.len(), secret.len());
            }
            for mask in 0u32..(1 << n) {
                if mask.count_ones() == k as u32 {
                    let mut which: Vec<usize> =
                        (0..n as usize).filter(|i| mask & (1 << i) != 0).collect();
                    assert_eq!(sharer.recontruct(pick(&shares, &which)), Ok(secret.clone()));
                    which.reverse();
                    assert_eq!(sharer.recontruct(pick(&shares, &which)), Ok(secret.clone()));
                }
            }
        }
    }
}

#[test]
fn shamir_all_255_shares() {
    let secret: Vec<u8> = (0..40usize).map(|i| (i * 13 % 256) as u8).collect();
    let sharer = ShamirSecretSharing::new(255, 255, rand::thread_rng()).unwrap();
    let shares = sharer.share(secret.clone()).unwrap();
    assert_eq!(shares.len(), 255);
    assert_eq!(shares[254].id, 255);
    let mut reversed = shares.clone();
    reversed.reverse();
    assert_eq!(sharer.recontruct(reversed), Ok(secret.clone()));
    assert_eq!(sharer.recontruct(shares), Ok(secret));
}

#[test]
fn shamir_inconsistent_shares() {
    let sharer = ShamirSecretSharing::new(5, 3, rand::thread_rng()).unwrap();
    let shares = sharer.share(vec![1, 2, 3, 4]).unwrap();
    assert_eq!(
        sharer.recontruct(pick(&shares, &[2, 4, 2])),
        Err(SharingError::InconsistentShares)
    );
    let mut given = pick(&shares, &[0, 1, 2]);
    given[0].id = 0;
    assert_eq!(sharer.recontruct(given), Err(SharingError::InconsistentShares));
    let mut given = pick(&shares, &[0, 1, 2]);
    given[1].body.pop();
    assert_eq!(sharer.recontruct(given), Err(SharingError::InconsistentShares));
    // a body of another length among the shares beyond the first three
    let mut given = pick(&shares, &[0, 1, 2, 3]);
    given[3].body.push(1);
    assert_eq!(sharer.recontruct(given), Err(SharingError::InconsistentShares));
}

#[test]
fn shamir_extra_shares_are_not_interpolated() {
    let sharer = ShamirSecretSharing::new(5, 2, rand::thread_rng()).unwrap();
    let secret = vec![11u8, 22, 33];
    let shares = sharer.share(secret.clone()).unwrap();
    let mut given = pick(&shares, &[4, 2, 0, 0]);
    given[2].body = vec![0, 0, 0];
    given[3].id = 0;
    assert_eq!(sharer.recontruct(given), Ok(secret));
}

#[test]
fn weights_of_interpolation_at_zero() {
    assert_eq!(interpolation_weights(&vec![5], 1), vec![1]);
    // for the points 1 and 2: 2 / (2 - 1) and 1 / (1 - 2)
    let third = sharing::field::inv(3);
    assert_eq!(
        interpolation_weights(&vec![1, 2], 2),
        vec![mul(2, third), third]
    );
    // the weights of a line through (1, a + b) and (2, a + 2b) give a
    let w = interpolation_weights(&vec![1, 2, 9], 2);
    for a in [0u8, 1, 77, 255] {
        for b in [0u8, 3, 200] {
            let y1 = add(a, b);
            let y2 = add(a, mul(b, 2));
            assert_eq!(add(mul(y1, w[0]), mul(y2, w[1])), a);
        }
    }
}

#[test]
fn shamir_reconstructs_shares_made_by_hand() {
    // the line 7 + 9x
    let sharer = ShamirSecretSharing::new(3, 2, rand::thread_rng()).unwrap();
    let given = vec![
        ShamirShare { id: 3, body: vec![7 ^ mul(9, 3)] },
        ShamirShare { id: 1, body: vec![7 ^ 9] },
    ];
    assert_eq!(sharer.recontruct(given), Ok(vec![7]));
}

#[test]
fn shamir_invalid_parameters() {
    assert!(ShamirSecretSharing::new(5, 3, rand::thread_rng()).is_ok());
    for (n, k) in [(0u8, 0u8), (3, 0), (2, 3), (0, 1)] {
        assert_eq!(
            ShamirSecretSharing::new(n, k, rand::thread_rng()).err(),
            Some(SharingError::InvalidParameters)
        );
    }
    let sharer = ShamirSecretSharing::new(3, 2, rand::thread_rng()).unwrap();
    assert_eq!(sharer.share(vec![1, 2, 3]).unwrap().len(), 3);
}
