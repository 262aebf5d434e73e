//! Shamir's scheme on a stream: the `n` shares are read byte by byte, each
//! at its own pace, and every byte of the secret gets its randomness once,
//! whichever share asks for it first.

use vstd::prelude::*;
use rand::Rng;
use std::cell::RefCell;
use crate::error::SharingError;
use crate::poly::{evaluate, poly_eval};
use crate::outside::{fill_random, new_cell};
use crate::secret::{is_shamir_sharing, randomness_fits, shamir_body, shamir_polynomial};
use crate::share::{prepend, zeros, ShamirShare};
use crate::valid_parameters;

verus! {

/// Shamir's secret sharing, handing out its shares as streams.
#[verifier::reject_recursive_types(R)]
pub struct ShamirIterSecretSharing<R> {
    n: u8,
    k: u8,
    rng: RefCell<R>,
}

/// The `n` streams of one sharing, which draw from the generator of the
/// sharer that opened them. The rows of randomness that some stream has
/// used and another has yet to use wait in a window, which the slowest
/// stream moves on.
#[verifier::reject_recursive_types(R)]
pub struct ShareStreams<'a, R> {
    n: u8,
    k: u8,
    source: Vec<u8>,
    rng: &'a RefCell<R>,
    cursors: Vec<usize>,
    base: usize,
    window: Vec<Vec<u8>>,
    drawn: Ghost<Seq<Seq<u8>>>,
}

/// What the streams of one sharing stand for.
pub struct StreamsView {
    /// The number of streams.
    pub n: nat,
    /// The threshold.
    pub k: nat,
    /// The secret.
    pub source: Seq<u8>,
    /// For each stream, the number of bytes that have been read from it.
    pub positions: Seq<nat>,
    /// The rows of randomness drawn so far: row `i` belongs to byte `i` of
    /// the secret.
    pub randomness: Seq<Seq<u8>>,
}

impl<'a, R> View for ShareStreams<'a, R> {
    type V = StreamsView;

    closed spec fn view(&self) -> StreamsView {
        StreamsView {
            n: self.n as nat,
            k: self.k as nat,
            source: self.source@,
            positions: Seq::new(self.cursors@.len(), |s: int| self.cursors@[s] as nat),
            randomness: self.drawn@,
        }
    }
}

/// `later` continues `earlier`.
pub open spec fn continues(earlier: Seq<Seq<u8>>, later: Seq<Seq<u8>>) -> bool {
    &&& earlier.len() <= later.len()
    &&& forall|p: int| 0 <= p < earlier.len() ==> earlier[p] == later[p]
}

impl<'a, R> ShareStreams<'a, R> {
    /// The streams are in order: each has read no more than the secret
    /// holds, randomness has been drawn for just the bytes that some stream
    /// has read, and each row has `k - 1` bytes.
    pub closed spec fn wf(&self) -> bool {
        &&& valid_parameters(self.n as nat, self.k as nat)
        &&& self.cursors@.len() == self.n
        &&& self.base + self.window@.len() <= self.source@.len()
        &&& self.drawn@.len() == self.base + self.window@.len()
        &&& forall|s: int|
            0 <= s < self.n ==> self.base <= #[trigger] self.cursors@[s] <= self.base
                + self.window@.len()
        &&& forall|t: int|
            0 <= t < self.window@.len() ==> (#[trigger] self.window@[t])@ == self.drawn@[self.base
                + t]
        &&& forall|p: int|
            0 <= p < self.drawn@.len() ==> (#[trigger] self.drawn@[p]).len() == self.k - 1
    }
}

impl<'a, R: Rng> ShareStreams<'a, R> {
    /// The smallest position among the streams.
    fn slowest(&self) -> (least: usize)
        requires
            self.wf(),
        ensures
            self.base <= least <= self.base + self.window@.len(),
            forall|s: int| 0 <= s < self.n ==> least <= #[trigger] self.cursors@[s],
    {
        let mut least = self.cursors[0];
        let mut s: usize = 1;
        while s < self.cursors.len()
            invariant
                1 <= s <= self.cursors@.len(),
                self.wf(),
                self.base <= least <= self.base + self.window@.len(),
                forall|t: int| 0 <= t < s ==> least <= #[trigger] self.cursors@[t],
            decreases self.cursors@.len() - s,
        {
            if self.cursors[s] < least {
                least = self.cursors[s];
            }
            s += 1;
        }
        least
    }

    /// The number of streams.
    pub fn count(&self) -> (n: u8)
        ensures
            n == self@.n,
    {
        self.n
    }

    /// The next byte of the share with identifier `x`, or nothing when the
    /// share has been read to its end.
    pub fn next(&mut self, x: u8) -> (r: Result<Option<u8>, SharingError>)
        requires
            old(self).wf(),
        ensures
            final(self).wf(),
            final(self)@.n == old(self)@.n,
            final(self)@.k == old(self)@.k,
            final(self)@.source == old(self)@.source,
            final(self)@.positions.len() == old(self)@.positions.len(),
            continues(old(self)@.randomness, final(self)@.randomness),
            !(1 <= x <= old(self)@.n) ==> r == Err::<Option<u8>, SharingError>(
                SharingError::InvalidParameters,
            ),
            r is Err ==> final(self)@ == old(self)@ && (1 <= x <= old(self)@.n ==> r == Err::<
                Option<u8>,
                SharingError,
            >(SharingError::RngFailure)),
            1 <= x <= old(self)@.n && old(self)@.positions[x - 1] == old(self)@.source.len()
                ==> r == Ok::<Option<u8>, SharingError>(None),
            1 <= x <= old(self)@.n && (old(self)@.positions[x - 1] < old(self)@.randomness.len()
                || old(self)@.k == 1) ==> r is Ok,
            1 <= x <= old(self)@.n && old(self)@.positions[x - 1] < old(self)@.randomness.len()
                ==> final(self)@.randomness == old(self)@.randomness,
            final(self)@.randomness.len() <= old(self)@.randomness.len() + 1,
            r matches Ok(None) ==> final(self)@ == old(self)@ && old(self)@.positions[x - 1]
                == old(self)@.source.len(),
            r matches Ok(Some(byte)) ==> {
                let p = old(self)@.positions[x - 1] as int;
                &&& p < old(self)@.source.len()
                &&& final(self)@.positions == old(self)@.positions.update(x - 1, (p + 1) as nat)
                &&& byte == poly_eval(
                    shamir_polynomial(final(self)@.source, final(self)@.randomness, p),
                    x,
                )
            },
    {
        if x < 1 || x > self.n {
            return Err(SharingError::InvalidParameters);
        }
        let stream = (x - 1) as usize;
        let p = self.cursors[stream];
        if p >= self.source.len() {
            return Ok(None);
        }
        if p == self.base + self.window.len() {
            let mut row = zeros((self.k - 1) as usize);
            if self.k > 1 {
                match fill_random(self.rng, &mut row) {
                    Ok(_) => {},
                    Err(_) => {
                        return Err(SharingError::RngFailure);
                    },
                }
            }
            proof {
                self.drawn@ = self.drawn@.push(row@);
            }
            self.window.push(row);
        } else {
            assert(self@.randomness =~= old(self)@.randomness);
        }
        let polynomial = prepend(self.source[p], &self.window[p - self.base]);
        let byte = evaluate(polynomial.as_slice(), x);
        self.cursors[stream] = p + 1;
        assert(self@.positions =~= old(self)@.positions.update(x - 1, (p + 1) as nat));
        let least = self.slowest();
        while self.base < least
            invariant
                self.wf(),
                least <= self.base + self.window@.len(),
                forall|s: int| 0 <= s < self.n ==> least <= #[trigger] self.cursors@[s],
                self@.n == old(self)@.n,
                self@.k == old(self)@.k,
                self@.source == old(self)@.source,
                self@.positions == old(self)@.positions.update(x - 1, (p + 1) as nat),
                continues(old(self)@.randomness, self@.randomness),
                self@.randomness.len() <= old(self)@.randomness.len() + 1,
                old(self)@.positions[x - 1] < old(self)@.randomness.len() ==> self@.randomness
                    == old(self)@.randomness,
                byte == poly_eval(shamir_polynomial(self@.source, self@.randomness, p as int), x),
            decreases least - self.base,
        {
            self.window.remove(0);
            self.base = self.base + 1;
        }
        Ok(Some(byte))
    }
}

impl<'a, R> ShareStreams<'a, R> {
    /// What being in order means for what the streams stand for.
    pub proof fn lemma_in_order(&self)
        requires
            self.wf(),
        ensures
            valid_parameters(self@.n, self@.k),
            self@.positions.len() == self@.n,
            self@.randomness.len() <= self@.source.len(),
            forall|s: int|
                0 <= s < self@.n ==> #[trigger] self@.positions[s] <= self@.randomness.len(),
            forall|p: int|
                0 <= p < self@.randomness.len() ==> (#[trigger] self@.randomness[p]).len()
                    == self@.k - 1,
    {
        assert forall|s: int| 0 <= s < self@.n implies #[trigger] self@.positions[s]
            <= self@.randomness.len() by {
            assert(self.cursors@[s] <= self.base + self.window@.len());
        }
    }
}

/// The bodies of the first `made` shares hold the values of the polynomials
/// that the randomness gives.
pub open spec fn streamed(
    shares: Seq<ShamirShare>,
    source: Seq<u8>,
    randomness: Seq<Seq<u8>>,
    made: int,
) -> bool {
    &&& shares.len() == made
    &&& forall|s: int|
        0 <= s < made ==> {
            &&& (#[trigger] shares[s]).id == s + 1
            &&& shares[s].body@ == shamir_body(source, randomness, (s + 1) as u8)
        }
}

/// The positions while the streams are read one after the other: `made`
/// streams at the end, the next at `p`, the others at the start.
pub open spec fn one_by_one(n: nat, len: nat, made: int, p: nat) -> Seq<nat> {
    Seq::new(
        n,
        |s: int|
            if s < made {
                len
            } else if s == made {
                p
            } else {
                0nat
            },
    )
}

/// Bodies read under some randomness are bodies under every randomness that
/// continues it, once it covers the secret.
proof fn lemma_streamed_on(
    shares: Seq<ShamirShare>,
    source: Seq<u8>,
    earlier: Seq<Seq<u8>>,
    later: Seq<Seq<u8>>,
    made: int,
)
    requires
        streamed(shares, source, earlier, made),
        continues(earlier, later),
        made > 0 ==> earlier.len() >= source.len(),
    ensures
        streamed(shares, source, later, made),
{
    assert forall|s: int| 0 <= s < made implies (#[trigger] shares[s]).body@ == shamir_body(
        source,
        later,
        (s + 1) as u8,
    ) by {
        assert forall|p: int| 0 <= p < source.len() implies shamir_polynomial(source, later, p)
            == shamir_polynomial(source, earlier, p) by {
            assert(earlier[p] == later[p]);
        }
        assert(shamir_body(source, later, (s + 1) as u8) =~= shamir_body(
            source,
            earlier,
            (s + 1) as u8,
        ));
    }
}

impl<'a, R: Rng> ShareStreams<'a, R> {
    /// Reads streams of which nothing has been read yet to their end, one
    /// after the other: the `n` shares of the secret.
    pub fn into_shares(self) -> (r: Result<Vec<ShamirShare>, SharingError>)
        requires
            self.wf(),
            forall|s: int| 0 <= s < self@.n ==> self@.positions[s] == 0,
        ensures
            self@.source.len() == 0 || self@.k == 1 ==> r is Ok,
            r is Err ==> r matches Err(SharingError::RngFailure),
            r matches Ok(shares) ==> exists|rows: Seq<Seq<u8>>|
                randomness_fits(rows, self@.source.len(), self@.k) && #[trigger] is_shamir_sharing(
                    shares@,
                    self@.source,
                    rows,
                    self@.n,
                ),
    {
        let mut streams = self;
        streams.read_all()
    }

    /// Reads the streams to their end, one after the other.
    fn read_all(&mut self) -> (r: Result<Vec<ShamirShare>, SharingError>)
        requires
            old(self).wf(),
            forall|s: int| 0 <= s < old(self)@.n ==> old(self)@.positions[s] == 0,
        ensures
            old(self)@.source.len() == 0 || old(self)@.k == 1 ==> r is Ok,
            r is Err ==> r matches Err(SharingError::RngFailure),
            r matches Ok(shares) ==> randomness_fits(
                final(self)@.randomness,
                old(self)@.source.len(),
                old(self)@.k,
            ),
            r matches Ok(shares) ==> is_shamir_sharing(
                shares@,
                old(self)@.source,
                final(self)@.randomness,
                old(self)@.n,
            ),
    {
        let ghost start = old(self)@;
        let n = self.n;
        let len = self.source.len();
        let mut shares: Vec<ShamirShare> = Vec::new();
        let mut made: u8 = 0;
        proof {
            self.lemma_in_order();
            assert(self@.positions =~= one_by_one(n as nat, len as nat, 0, 0));
        }
        while made < n
            invariant
                made <= n,
                start == old(self)@,
                self.wf(),
                self@.n == start.n,
                self@.k == start.k,
                self@.source == start.source,
                n == start.n,
                len == start.source.len(),
                self@.positions == one_by_one(n as nat, len as nat, made as int, 0),
                streamed(shares@, start.source, self@.randomness, made as int),
            decreases n - made,
        {
            let x: u8 = made + 1;
            let mut body: Vec<u8> = Vec::new();
            let mut p: usize = 0;
            while p < len
                invariant
                    p <= len,
                    made < n,
                    x == made + 1,
                    start == old(self)@,
                    self.wf(),
                    self@.n == start.n,
                    self@.k == start.k,
                    self@.source == start.source,
                    n == start.n,
                    len == start.source.len(),
                    self@.positions == one_by_one(n as nat, len as nat, made as int, p as nat),
                    streamed(shares@, start.source, self@.randomness, made as int),
                    body@.len() == p,
                    forall|t: int|
                        0 <= t < p ==> body@[t] == poly_eval(
                            shamir_polynomial(start.source, self@.randomness, t),
                            x,
                        ),
                decreases len - p,
            {
                let ghost earlier = self@.randomness;
                proof {
                    self.lemma_in_order();
                    assert(self@.positions[made as int] == p);
                    if made > 0 {
                        assert(self@.positions[0] == len);
                    }
                }
                match self.next(x) {
                    Ok(Some(byte)) => {
                        body.push(byte);
                    },
                    _ => {
                        return Err(SharingError::RngFailure);
                    },
                }
                proof {
                    assert(self@.positions =~= one_by_one(
                        n as nat,
                        len as nat,
                        made as int,
                        (p + 1) as nat,
                    ));
                    lemma_streamed_on(
                        shares@,
                        start.source,
                        earlier,
                        self@.randomness,
                        made as int,
                    );
                    assert forall|t: int| 0 <= t < p implies shamir_polynomial(
                        start.source,
                        self@.randomness,
                        t,
                    ) == shamir_polynomial(start.source, earlier, t) by {
                        assert(earlier[t] == self@.randomness[t]);
                    }
                }
                p += 1;
            }
            proof {
                assert(body@ =~= shamir_body(start.source, self@.randomness, x));
                assert(self@.positions =~= one_by_one(
                    n as nat,
                    len as nat,
                    made as int + 1,
                    0,
                ));
            }
            shares.push(ShamirShare { id: x, body });
            made += 1;
        }
        proof {
            self.lemma_in_order();
            let rows = self@.randomness;
            assert(self@.positions[0] == len);
            assert(randomness_fits(rows, start.source.len(), start.k));
            assert(is_shamir_sharing(shares@, start.source, rows, start.n));
        }
        Ok(shares)
    }
}

impl<R: Rng> ShamirIterSecretSharing<R> {
    /// A sharing into `n` shares with threshold `k`, which draws its
    /// randomness from `rng`, where there is one: the threshold is at least
    /// one and at most `n`.
    pub fn new(n: u8, k: u8, rng: R) -> (r: Result<Self, SharingError>)
        ensures
            r is Ok <==> valid_parameters(n as nat, k as nat),
            r is Err ==> r matches Err(SharingError::InvalidParameters),
            r matches Ok(s) ==> s.share_count() == n && s.threshold() == k,
    {
        if k < 1 || k > n {
            return Err(SharingError::InvalidParameters);
        }
        Ok(Self { n, k, rng: new_cell(rng) })
    }

    /// The number `n` of streams that `share` opens.
    pub closed spec fn share_count(&self) -> nat {
        self.n as nat
    }

    /// The number `k` of shares that give the secret back.
    pub closed spec fn threshold(&self) -> nat {
        self.k as nat
    }

    /// Opens the `n` streams of a sharing of `data`, none of them read yet
    /// and no randomness drawn.
    pub fn share(&self, data: Vec<u8>) -> (r: Result<ShareStreams<'_, R>, SharingError>)
        ensures
            r is Ok <==> valid_parameters(self.share_count(), self.threshold()),
            r is Err ==> r matches Err(SharingError::InvalidParameters),
            r matches Ok(streams) ==> {
                &&& streams.wf()
                &&& streams@.n == self.share_count()
                &&& streams@.k == self.threshold()
                &&& streams@.source == data@
                &&& streams@.positions == Seq::new(self.share_count(), |s: int| 0nat)
                &&& streams@.randomness == Seq::<Seq<u8>>::empty()
            },
    {
        if self.k < 1 || self.k > self.n {
            return Err(SharingError::InvalidParameters);
        }
        let mut cursors: Vec<usize> = Vec::new();
        let mut s: u8 = 0;
        while s < self.n
            invariant
                s <= self.n,
                cursors@.len() == s,
                forall|t: int| 0 <= t < s ==> cursors@[t] == 0,
            decreases self.n - s,
        {
            cursors.push(0);
            s += 1;
        }
        let streams = ShareStreams {
            n: self.n,
            k: self.k,
            source: data,
            rng: &self.rng,
            cursors,
            base: 0,
            window: Vec::new(),
            drawn: Ghost(Seq::empty()),
        };
        assert(streams@.positions =~= Seq::new(self.share_count(), |s: int| 0nat));
        Ok(streams)
    }
}

} // verus!
