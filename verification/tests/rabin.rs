use sharing::error::SharingError;
use sharing::field::{add, mul};
use sharing::share::RabinShare;
use sharing::{ids::RabinInformationDispersal, Sharing};

fn pick(shares: &[RabinShare], which: &[usize]) -> Vec<RabinShare> {
    which.iter().map(|i| shares[*i].clone()).collect()
}

#[test]
fn rabin_seven_bytes_two_of_four() {
    let secret = vec![10u8, 20, 30, 40, 50, 60, 70];
    let sharer = RabinInformationDispersal::new(4, 2).unwrap();
    let shares = sharer.share(secret.clone()).unwrap();
    assert_eq!(shares.len(), 4);
    for (i, s) in shares.iter().enumerate() {
        assert_eq!(s.id as usize, i + 1);
        assert_eq!(s.length, 7);
        assert_eq!(s.body.len(), 4);
    }
    for a in 0..4 {
        for b in 0..4 {
            if a != b {
                assert_eq!(sharer.recontruct(pick(&shares, &[a, b])), Ok(secret.clone()));
            }
        }
    }
}

#[test]
fn rabin_exact_chunks_three_of_five() {
    let secret = vec![1u8, 2, 3, 4, 5, 6];
    let sharer = RabinInformationDispersal::new(5, 3).unwrap();
    let shares = sharer.share(secret.clone()).unwrap();
    for s in shares.iter() {
        assert_eq!(s.body.len(), 2);
    }
    assert_eq!(sharer.recontruct(pick(&shares, &[1, 2, 3])), Ok(secret.clone()));
    assert_eq!(sharer.recontruct(shares[1..=3].to_vec()), Ok(secret));
}

#[test]
fn rabin_exact_bodies() {
    let sharer = RabinInformationDispersal::new(3, 2).unwrap();
    let shares = sharer.share(vec![1, 2, 3]).unwrap();
    // chunks [1, 2] and [3, 0]: values 1 + 2x and 3
    assert_eq!(shares[0].body, vec![1 ^ 2, 3]);
    assert_eq!(shares[1].body, vec![1 ^ 4, 3]);
    assert_eq!(shares[2].body, vec![add(1, mul(2, 3)), 3]);
    let sharer = RabinInformationDispersal::new(2, 1).unwrap();
    let shares = sharer.share(vec![9, 8, 7]).unwrap();
    assert_eq!(shares[0].body, vec![9, 8, 7]);
    assert_eq!(shares[1].body, vec![9, 8, 7]);
}

#[test]
fn rabin_empty_secret() {
    let sharer = RabinInformationDispersal::new(3, 2).unwrap();
    let shares = sharer.share(vec![]).unwrap();
    assert_eq!(shares.len(), 3);
    for s in shares.iter() {
        assert!(s.body.is_empty());
        assert_eq!(s.length, 0);
    }
    assert_eq!(sharer.recontruct(pick(&shares, &[2, 0])), Ok(vec![]));
}

#[test]
fn rabin_every_quorum_of_every_size() {
    let secret: Vec<u8> = (0..23u8).map(|i| i.wrapping_mul(37).wrapping_add(11)).collect();
    for n in 1..=6u8 {
        for k in 1..=n {
            let sharer = RabinInformationDispersal::new(n, k).unwrap();
            let shares = sharer.share(secret.clone()).unwrap();
            for s in shares.iter() {
                assert_eq!(s.body.len(), (secret.len() + k as usize - 1) / k as usize);
                assert_eq!(s.length, secret.len());
            }
            for mask in 0u32..(1 << n) {
                if mask.count_ones() == k as u32 {
                    let mut which: Vec<usize> =
                        (0..n as usize).filter(|i| mask & (1 << i) != 0).collect();
                    assert_eq!(sharer.recontruct(pick(&shares, &which)), Ok(secret.clone()));
                    which.reverse();
                    assert_eq!(sharer.recontruct(pick(&shares, &which)), Ok(secret.clone()));
                }
            }
        }
    }
}

#[test]
fn rabin_all_255_shares() {
    let secret: Vec<u8> = (0..600usize).map(|i| (i * 7 % 256) as u8).collect();
    let sharer = RabinInformationDispersal::new(255, 255).unwrap();
    let shares = sharer.share(secret.clone()).unwrap();
    assert_eq!(shares.len(), 255);
    assert_eq!(shares[254].id, 255);
    assert_eq!(shares[0].body.len(), 3);
    let mut reversed = shares.clone();
    reversed.reverse();
    assert_eq!(sharer.recontruct(reversed), Ok(secret.clone()));
    assert_eq!(sharer.recontruct(shares), Ok(secret));
}

#[test]
fn rabin_extra_shares_are_ignored() {
    let secret = vec![5u8, 6, 7, 8, 9];
    let sharer = RabinInformationDispersal::new(5, 2).unwrap();
    let shares = sharer.share(secret.clone()).unwrap();
    let mut given = pick(&shares, &[3, 1, 0]);
    given[2].body = vec![1];
    given[2].id = given[0].id;
    given[2].length = 99;
    assert_eq!(sharer.recontruct(given), Ok(secret));
}

#[test]
fn rabin_insufficient_shares() {
    let sharer = RabinInformationDispersal::new(5, 3).unwrap();
    let shares = sharer.share(vec![1, 2, 3, 4]).unwrap();
    assert_eq!(sharer.recontruct(vec![]), Err(SharingError::InsufficientShares));
    assert_eq!(
        sharer.recontruct(pick(&shares, &[0])),
        Err(SharingError::InsufficientShares)
    );
    assert_eq!(
        sharer.recontruct(pick(&shares, &[0, 4])),
        Err(SharingError::InsufficientShares)
    );
}

#[test]
fn rabin_inconsistent_shares() {
    let sharer = RabinInformationDispersal::new(5, 3).unwrap();
    let shares = sharer.share(vec![1, 2, 3, 4]).unwrap();
    // an identifier twice
    assert_eq!(
        sharer.recontruct(pick(&shares, &[0, 1, 0])),
        Err(SharingError::InconsistentShares)
    );
    // the identifier zero
    let mut given = pick(&shares, &[0, 1, 2]);
    given[1].id = 0;
    assert_eq!(sharer.recontruct(given), Err(SharingError::InconsistentShares));
    // lengths of the secret that differ
    let mut given = pick(&shares, &[0, 1, 2]);
    given[2].length = 5;
    assert_eq!(sharer.recontruct(given), Err(SharingError::InconsistentShares));
    // a body that is too short, and one that is too long
    let mut given = pick(&shares, &[0, 1, 2]);
    given[0].body.pop();
    assert_eq!(sharer.recontruct(given), Err(SharingError::InconsistentShares));
    let mut given = pick(&shares, &[0, 1, 2]);
    given[2].body.push(0);
    assert_eq!(sharer.recontruct(given), Err(SharingError::InconsistentShares));
    // a length that the bodies cannot hold
    let mut given = pick(&shares, &[0, 1, 2]);
    for s in given.iter_mut() {
        s.length = 7;
    }
    assert_eq!(sharer.recontruct(given), Err(SharingError::InconsistentShares));
}

#[test]
fn rabin_cuts_off_what_the_length_leaves_out() {
    let sharer = RabinInformationDispersal::new(5, 3).unwrap();
    let shares = sharer.share(vec![1, 2, 3, 4]).unwrap();
    // a shorter length: less of the same bytes
    let mut given = pick(&shares, &[4, 1, 2]);
    for s in given.iter_mut() {
        s.length = 3;
    }
    assert_eq!(sharer.recontruct(given), Ok(vec![1, 2, 3]));
    let mut given = pick(&shares, &[4, 1, 2]);
    for s in given.iter_mut() {
        s.length = 0;
    }
    assert_eq!(sharer.recontruct(given), Ok(vec![]));
    // bodies with a chunk to spare
    let mut given = pick(&shares, &[0, 3, 2]);
    for s in given.iter_mut() {
        s.body.push(77);
    }
    assert_eq!(sharer.recontruct(given), Ok(vec![1, 2, 3, 4]));
}

#[test]
fn rabin_invalid_parameters() {
    assert!(RabinInformationDispersal::new(5, 3).is_ok());
    assert!(RabinInformationDispersal::new(1, 1).is_ok());
    assert!(RabinInformationDispersal::new(255, 255).is_ok());
    for (n, k) in [(0u8, 0u8), (3, 0), (2, 3), (0, 1)] {
        assert_eq!(
            RabinInformationDispersal::new(n, k).err(),
            Some(SharingError::InvalidParameters)
        );
    }
    let sharer = RabinInformationDispersal::new(3, 2).unwrap();
    assert_eq!(sharer.share(vec![1, 2, 3]).unwrap().len(), 3);
}

#[test]
fn rabin_decodes_shares_made_by_hand() {
    // the polynomial 7 + 9x takes 7 + 9 at 1 and 7 + 18 at 2
    let sharer = RabinInformationDispersal::new(2, 2).unwrap();
    let given = vec![
        RabinShare { id: 2, length: 2, body: vec![7 ^ mul(9, 2)] },
        RabinShare { id: 1, length: 2, body: vec![7 ^ 9] },
    ];
    assert_eq!(sharer.recontruct(given), Ok(vec![7, 9]));
    // with a length of one, the second coefficient is cut off
    let given = vec![
        RabinShare { id: 2, length: 1, body: vec![7 ^ mul(9, 2)] },
        RabinShare { id: 1, length: 1, body: vec![7 ^ 9] },
    ];
    assert_eq!(sharer.recontruct(given), Ok(vec![7]));
}
