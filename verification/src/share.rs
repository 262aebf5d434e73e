//! The records that the sharing algorithms hand out.

use vstd::prelude::*;
use crate::linear::zero_vec;

verus! {

/// What every kind of share offers.
pub trait Share: Clone {
    /// The evaluation point of the share; zero in a share that is yet to be
    /// filled.
    spec fn share_id(&self) -> u8;

    /// The payload of the share.
    spec fn share_body(&self) -> Seq<u8>;

    /// What `size` reports.
    spec fn share_size(&self) -> nat;

    /// The identifier of the share.
    fn id(&self) -> (r: u8)
        ensures
            r == self.share_id(),
    ;

    /// The size that the share records: the length of its body where it
    /// records nothing else, the length of the secret where it does.
    fn size(&self) -> (r: usize)
        ensures
            r == self.share_size(),
    ;

    /// A blank share whose body holds `size` zero bytes.
    fn with_size(size: usize) -> (s: Self)
        ensures
            s.share_id() == 0,
            s.share_body() == zero_vec(size as nat),
    ;
}

/// A share of Shamir's scheme: of the polynomial of each secret byte, the
/// value at `id`.
#[derive(Debug, Clone)]
pub struct ShamirShare {
    pub id: u8,
    pub body: Vec<u8>,
}

impl Share for ShamirShare {
    open spec fn share_id(&self) -> u8 {
        self.id
    }

    open spec fn share_body(&self) -> Seq<u8> {
        self.body@
    }

    open spec fn share_size(&self) -> nat {
        self.body@.len()
    }

    fn id(&self) -> (r: u8) {
        self.id
    }

    fn size(&self) -> (r: usize) {
        self.body.len()
    }

    fn with_size(size: usize) -> (s: Self) {
        Self { id: 0, body: zeros(size) }
    }
}

/// A share of Rabin's dispersal: of the polynomial of each chunk of the
/// secret, the value at `id`; `length` is the length of the secret.
#[derive(Debug, Clone)]
pub struct RabinShare {
    pub id: u8,
    pub length: usize,
    pub body: Vec<u8>,
}

impl Share for RabinShare {
    open spec fn share_id(&self) -> u8 {
        self.id
    }

    open spec fn share_body(&self) -> Seq<u8> {
        self.body@
    }

    open spec fn share_size(&self) -> nat {
        self.length as nat
    }

    fn id(&self) -> (r: u8) {
        self.id
    }

    fn size(&self) -> (r: usize) {
        self.length
    }

    fn with_size(size: usize) -> (s: Self)
        ensures
            s.length == 0,
    {
        Self { id: 0, length: 0, body: zeros(size) }
    }
}

/// A share of Krawczyk's scheme: a Rabin share of the encrypted secret, and
/// in `key` a Shamir share of the key and nonce it was encrypted with;
/// `length` is the length of the secret.
#[derive(Clone)]
pub struct KrawczykShare {
    pub id: u8,
    pub length: usize,
    pub key: [u8; 44],
    pub body: Vec<u8>,
}

impl Share for KrawczykShare {
    open spec fn share_id(&self) -> u8 {
        self.id
    }

    open spec fn share_body(&self) -> Seq<u8> {
        self.body@
    }

    open spec fn share_size(&self) -> nat {
        self.length as nat
    }

    fn id(&self) -> (r: u8) {
        self.id
    }

    fn size(&self) -> (r: usize) {
        self.length
    }

    fn with_size(size: usize) -> (s: Self)
        ensures
            s.length == 0,
            s.key@ == zero_vec(44),
    {
        let s = Self { id: 0, length: 0, key: [0u8; 44], body: zeros(size) };
        assert(s.key@ =~= zero_vec(44));
        s
    }
}

/// A vector of `size` zero bytes.
pub fn zeros(size: usize) -> (v: Vec<u8>)
    ensures
        v@ == zero_vec(size as nat),
{
    let mut v: Vec<u8> = Vec::new();
    let mut i: usize = 0;
    while i < size
        invariant
            i <= size,
            v@.len() == i,
            forall|t: int| 0 <= t < i ==> v@[t] == 0,
        decreases size - i,
    {
        v.push(0);
        i += 1;
    }
    assert(v@ =~= zero_vec(size as nat));
    v
}

/// The bytes of `src` from position `from` up to position `to`.
pub fn copy_range(src: &[u8], from: usize, to: usize) -> (v: Vec<u8>)
    requires
        from <= to <= src@.len(),
    ensures
        v@ == src@.subrange(from as int, to as int),
{
    let mut v: Vec<u8> = Vec::new();
    let mut i: usize = from;
    while i < to
        invariant
            from <= i <= to,
            to <= src@.len(),
            v@.len() == i - from,
            forall|t: int| 0 <= t < i - from ==> v@[t] == src@[from + t],
        decreases to - i,
    {
        v.push(src[i]);
        i += 1;
    }
    assert(v@ =~= src@.subrange(from as int, to as int));
    v
}

/// The identifiers of the shares.
pub open spec fn ids_of<S: Share>(shares: Seq<S>) -> Seq<u8> {
    Seq::new(shares.len(), |m: int| shares[m].share_id())
}

/// The identifiers of the shares, in their order.
pub fn collect_ids<S: Share>(shares: &Vec<S>) -> (ids: Vec<u8>)
    ensures
        ids@ == ids_of(shares@),
{
    let mut ids: Vec<u8> = Vec::new();
    let mut m: usize = 0;
    while m < shares.len()
        invariant
            m <= shares@.len(),
            ids@.len() == m,
            forall|t: int| 0 <= t < m ==> ids@[t] == shares@[t].share_id(),
        decreases shares@.len() - m,
    {
        ids.push(shares[m].id());
        m += 1;
    }
    assert(ids@ =~= ids_of(shares@));
    ids
}

/// The coefficients `first` and, after it, those of `rest`.
pub fn prepend(first: u8, rest: &Vec<u8>) -> (v: Vec<u8>)
    ensures
        v@ == seq![first] + rest@,
{
    let mut v: Vec<u8> = Vec::new();
    v.push(first);
    let mut j: usize = 0;
    while j < rest.len()
        invariant
            j <= rest@.len(),
            v@.len() == j + 1,
            v@[0] == first,
            forall|t: int| 0 <= t < j ==> v@[t + 1] == rest@[t],
        decreases rest@.len() - j,
    {
        v.push(rest[j]);
        j += 1;
    }
    assert(v@ =~= seq![first] + rest@);
    v
}

/// What a collection of shares offers.
pub trait ShareVec: Sized {
    /// The shares held.
    spec fn sizes(&self) -> Seq<nat>;

    /// The bodies of the shares held.
    spec fn bodies(&self) -> Seq<Seq<u8>>;

    /// The size that all the shares agree on.
    fn size(&self) -> (r: usize)
        requires
            self.sizes().len() > 0,
            forall|i: int|
                0 <= i < self.sizes().len() ==> #[trigger] self.sizes()[i] == self.sizes()[0],
        ensures
            r == self.sizes()[0],
    ;

    /// `n` blank shares, each with a body of `size` zero bytes.
    fn with_size(n: usize, size: usize) -> (v: Self)
        ensures
            v.bodies().len() == n,
            forall|i: int| 0 <= i < n ==> #[trigger] v.bodies()[i] == zero_vec(size as nat),
    ;
}

impl<S: Share> ShareVec for Vec<S> {
    open spec fn sizes(&self) -> Seq<nat> {
        Seq::new(self@.len(), |i: int| self@[i].share_size())
    }

    open spec fn bodies(&self) -> Seq<Seq<u8>> {
        Seq::new(self@.len(), |i: int| self@[i].share_body())
    }

    fn size(&self) -> (r: usize) {
        assert(self.sizes()[0] == self@[0].share_size());
        self[0].size()
    }

    fn with_size(n: usize, size: usize) -> (v: Self) {
        let mut v: Vec<S> = Vec::new();
        let mut i: usize = 0;
        while i < n
            invariant
                i <= n,
                v@.len() == i,
                forall|t: int|
                    0 <= t < i ==> (#[trigger] v@[t]).share_body() == zero_vec(size as nat),
            decreases n - i,
        {
            v.push(S::with_size(size));
            i += 1;
        }
        v
    }
}

} // verus!
