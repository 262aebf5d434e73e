use rand::rngs::mock::StepRng;
use rand::{Error, RngCore};
use sharing::error::SharingError;
use sharing::field::mul;
use sharing::secret::ShamirSecretSharing;
use sharing::secret_iter::{ShamirIterSecretSharing, ShareStreams};
use sharing::share::ShamirShare;

/// A generator that fails on the third request and works otherwise.
struct Flaky {
    calls: u32,
}

impl RngCore for Flaky {
    fn next_u32(&mut self) -> u32 {
        7
    }

    fn next_u64(&mut self) -> u64 {
        7
    }

    fn fill_bytes(&mut self, dest: &mut [u8]) {
        for b in dest.iter_mut() {
            *b = 7;
        }
    }

    fn try_fill_bytes(&mut self, dest: &mut [u8]) -> Result<(), Error> {
        self.calls += 1;
        if self.calls == 3 {
            return Err(Error::new("no entropy"));
        }
        self.fill_bytes(dest);
        Ok(())
    }
}

fn drain<R: rand::Rng>(streams: &mut ShareStreams<R>, x: u8) -> Vec<u8> {
    let mut body = Vec::new();
    while let Some(b) = streams.next(x).unwrap() {
        body.push(b);
    }
    body
}

#[test]
fn test_iter() {
    let sharer1 = ShamirSecretSharing::new(3, 2, rand::thread_rng()).unwrap();

    let sharer2 = ShamirIterSecretSharing::new(3, 2, rand::thread_rng()).unwrap();

    let shares1 = sharer1.share([1, 2, 3, 4, 5].to_vec()).unwrap();

    let mut streams = sharer2.share([1, 2, 3, 4, 5].to_vec()).unwrap();
    let shares2: Vec<_> = (1..=3u8)
        .map(|x| ShamirShare {
            id: x,
            body: drain(&mut streams, x),
        })
        .collect();
    assert_eq!(
        sharer1.recontruct(shares1[1..=2].to_vec()),
        sharer1.recontruct(shares2[1..=2].to_vec())
    );
    assert_eq!(sharer1.recontruct(shares2[1..=2].to_vec()), Ok(vec![1, 2, 3, 4, 5]));
}

#[test]
fn streams_share_their_randomness() {
    // the generator gives the bytes 5, 6, 7, ..., one for each byte of the
    // secret
    let data = vec![10u8, 20, 30, 40];
    let expected = |x: u8| -> Vec<u8> {
        data.iter()
            .enumerate()
            .map(|(p, b)| b ^ mul(5 + p as u8, x))
            .collect()
    };
    // one stream after the other
    let sharer = ShamirIterSecretSharing::new(3, 2, StepRng::new(5, 1)).unwrap();
    let mut streams = sharer.share(data.clone()).unwrap();
    for x in [2u8, 1, 3] {
        assert_eq!(drain(&mut streams, x), expected(x));
    }
    // byte by byte, the streams taking turns
    let sharer = ShamirIterSecretSharing::new(3, 2, StepRng::new(5, 1)).unwrap();
    let mut streams = sharer.share(data.clone()).unwrap();
    for p in 0..4 {
        for x in [3u8, 1, 2] {
            assert_eq!(streams.next(x), Ok(Some(expected(x)[p])));
        }
    }
    // out of step
    let sharer = ShamirIterSecretSharing::new(3, 2, StepRng::new(5, 1)).unwrap();
    let mut streams = sharer.share(data.clone()).unwrap();
    assert_eq!(streams.next(1), Ok(Some(expected(1)[0])));
    assert_eq!(streams.next(1), Ok(Some(expected(1)[1])));
    assert_eq!(streams.next(3), Ok(Some(expected(3)[0])));
    assert_eq!(streams.next(1), Ok(Some(expected(1)[2])));
    assert_eq!(streams.next(2), Ok(Some(expected(2)[0])));
    assert_eq!(streams.next(2), Ok(Some(expected(2)[1])));
    assert_eq!(streams.next(3), Ok(Some(expected(3)[1])));
    assert_eq!(streams.next(1), Ok(Some(expected(1)[3])));
    assert_eq!(streams.next(1), Ok(None));
    assert_eq!(drain(&mut streams, 3), expected(3)[2..].to_vec());
    assert_eq!(drain(&mut streams, 2), expected(2)[2..].to_vec());
    for x in 1..=3u8 {
        assert_eq!(streams.next(x), Ok(None));
        assert_eq!(streams.next(x), Ok(None));
    }
}

#[test]
fn streams_give_shares_that_reconstruct() {
    let secret: Vec<u8> = (0..40u8).map(|i| i.wrapping_mul(17).wrapping_add(9)).collect();
    for n in 1..=5u8 {
        for k in 1..=n {
            let sharer = ShamirIterSecretSharing::new(n, k, rand::thread_rng()).unwrap();
            let mut streams = sharer.share(secret.clone()).unwrap();
            let mut shares: Vec<ShamirShare> = (1..=n)
                .rev()
                .map(|x| ShamirShare { id: x, body: drain(&mut streams, x) })
                .collect();
            for s in shares.iter() {
                assert_eq!(s.body.len(), secret.len());
            }
            shares.truncate(k as usize);
            let plain = ShamirSecretSharing::new(n, k, rand::thread_rng()).unwrap();
            assert_eq!(plain.recontruct(shares), Ok(secret.clone()));
        }
    }
}

#[test]
fn streams_with_threshold_one_repeat_the_secret() {
    let sharer = ShamirIterSecretSharing::new(3, 1, rand::thread_rng()).unwrap();
    let mut streams = sharer.share(vec![42, 42]).unwrap();
    for x in 1..=3u8 {
        assert_eq!(drain(&mut streams, x), vec![42, 42]);
    }
}

#[test]
fn streams_of_an_empty_secret() {
    let sharer = ShamirIterSecretSharing::new(3, 2, rand::thread_rng()).unwrap();
    let mut streams = sharer.share(vec![]).unwrap();
    for x in 1..=3u8 {
        assert_eq!(streams.next(x), Ok(None));
    }
}

#[test]
fn streams_refuse_what_they_cannot_do() {
    let sharer = ShamirIterSecretSharing::new(3, 2, rand::thread_rng()).unwrap();
    let mut streams = sharer.share(vec![1, 2]).unwrap();
    assert_eq!(streams.count(), 3);
    assert_eq!(streams.next(0), Err(SharingError::InvalidParameters));
    assert_eq!(streams.next(4), Err(SharingError::InvalidParameters));
    assert!(streams.next(3).unwrap().is_some());
}

#[test]
fn streams_keep_their_place_when_the_generator_fails() {
    let sharer = ShamirIterSecretSharing::new(2, 2, Flaky { calls: 0 }).unwrap();
    let mut streams = sharer.share(vec![1, 2, 3, 4]).unwrap();
    assert_eq!(streams.next(1), Ok(Some(1 ^ 7)));
    assert_eq!(streams.next(1), Ok(Some(2 ^ 7)));
    assert_eq!(streams.next(1), Err(SharingError::RngFailure));
    // the other stream reads what has been drawn
    assert_eq!(streams.next(2), Ok(Some(1 ^ mul(7, 2))));
    // and the failed request can be made again
    assert_eq!(streams.next(1), Ok(Some(3 ^ 7)));
    assert_eq!(streams.next(2), Ok(Some(2 ^ mul(7, 2))));
    assert_eq!(streams.next(2), Ok(Some(3 ^ mul(7, 2))));
}

#[test]
fn sharings_go_on_with_the_generator_of_their_sharer() {
    let sharer = ShamirIterSecretSharing::new(2, 2, StepRng::new(9, 1)).unwrap();
    let mut one = sharer.share(vec![0, 0]).unwrap();
    let mut two = sharer.share(vec![0, 0]).unwrap();
    assert_eq!(drain(&mut one, 1), vec![9, 10]);
    assert_eq!(drain(&mut two, 1), vec![11, 12]);
    assert_eq!(drain(&mut two, 2), vec![mul(11, 2), mul(12, 2)]);
    assert_eq!(drain(&mut one, 2), vec![mul(9, 2), mul(10, 2)]);
}

#[test]
fn streams_ask_the_generator_only_where_they_must() {
    // a stream at its end
    let sharer = ShamirIterSecretSharing::new(2, 2, Flaky { calls: 2 }).unwrap();
    let mut streams = sharer.share(vec![]).unwrap();
    assert_eq!(streams.next(1), Ok(None));
    assert_eq!(streams.next(2), Ok(None));
    // a threshold of one
    let sharer = ShamirIterSecretSharing::new(3, 1, Flaky { calls: 2 }).unwrap();
    let mut streams = sharer.share(vec![5, 6]).unwrap();
    assert_eq!(streams.next(2), Ok(Some(5)));
    assert_eq!(streams.next(2), Ok(Some(6)));
    assert_eq!(streams.next(2), Ok(None));
    assert_eq!(streams.next(1), Ok(Some(5)));
    let sharer = ShamirIterSecretSharing::new(3, 1, Flaky { calls: 2 }).unwrap();
    let shares = sharer.share(vec![5, 6]).unwrap().into_shares().unwrap();
    assert!(shares.iter().all(|s| s.body == vec![5, 6]));
    let sharer = ShamirIterSecretSharing::new(3, 2, Flaky { calls: 2 }).unwrap();
    assert_eq!(sharer.share(vec![]).unwrap().into_shares().unwrap().len(), 3);
}

#[test]
fn streams_invalid_parameters() {
    assert!(ShamirIterSecretSharing::new(5, 3, rand::thread_rng()).is_ok());
    for (n, k) in [(0u8, 0u8), (3, 0), (2, 3), (0, 1)] {
        assert_eq!(
            ShamirIterSecretSharing::new(n, k, rand::thread_rng()).err(),
            Some(SharingError::InvalidParameters)
        );
    }
}

#[test]
fn streams_read_into_shares() {
    let data = vec![10u8, 20, 30, 40];
    let sharer = ShamirIterSecretSharing::new(3, 2, StepRng::new(5, 1)).unwrap();
    let shares = sharer.share(data.clone()).unwrap().into_shares().unwrap();
    assert_eq!(shares.len(), 3);
    for (i, s) in shares.iter().enumerate() {
        let x = (i + 1) as u8;
        assert_eq!(s.id, x);
        let expected: Vec<u8> = data
            .iter()
            .enumerate()
            .map(|(p, b)| b ^ mul(5 + p as u8, x))
            .collect();
        assert_eq!(s.body, expected);
    }
    let plain = ShamirSecretSharing::new(3, 2, rand::thread_rng()).unwrap();
    assert_eq!(plain.recontruct(shares[1..].to_vec()), Ok(data));
    let sharer = ShamirIterSecretSharing::new(2, 2, Flaky { calls: 0 }).unwrap();
    assert_eq!(
        sharer.share(vec![1, 2, 3]).unwrap().into_shares().err(),
        Some(SharingError::RngFailure)
    );
    let sharer = ShamirIterSecretSharing::new(4, 3, rand::thread_rng()).unwrap();
    let shares = sharer.share(vec![]).unwrap().into_shares().unwrap();
    assert_eq!(shares.len(), 4);
    assert!(shares.iter().all(|s| s.body.is_empty()));
}
