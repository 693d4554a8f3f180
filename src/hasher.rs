//! Cryptographic digests of chunks and of whole sources.
//!
//! A chunk's identity is its hash sum: the first `hash_length` bytes of its
//! Blake2b digest, or `hash_length` bytes of Blake3's extendable output.
use blake2::Digest;
use blake3::Hasher as Blake3State;
use vstd::prelude::*;

verus! {

/// Bytes in a full Blake2b digest.
pub const BLAKE2_DIGEST_LEN: usize = 64;

/// The 64-byte Blake2b digest of `data`.
pub uninterp spec fn blake2b_sum(data: Seq<u8>) -> Seq<u8>;

/// The first `len` bytes of Blake3's extendable output over `data`.
pub uninterp spec fn blake3_sum(data: Seq<u8>, len: nat) -> Seq<u8>;

/// Relies on blake2::Blake2b::digest (the `Digest` trait of digest 0.8): the
/// 64-byte digest of the input, a function of the input alone.
#[verifier::external_body]
pub(crate) fn blake2b_of(data: &[u8]) -> (r: Vec<u8>)
    ensures
        r@ == blake2b_sum(data@),
        r@.len() == BLAKE2_DIGEST_LEN,
{
    blake2::Blake2b::digest(data).to_vec()
}

/// Relies on blake3::Hasher (new, update, finalize_xof, OutputReader::fill):
/// `len` bytes of the extendable output, a function of the input and `len`.
#[verifier::external_body]
fn blake3_of(data: &[u8], len: usize) -> (r: Vec<u8>)
    ensures
        r@ == blake3_sum(data@, len as nat),
        r@.len() == len,
{
    let mut out = vec![0u8; len];
    Blake3State::new().update(data).finalize_xof().fill(&mut out);
    out
}

#[verifier::external_type_specification]
#[verifier::external_body]
pub struct ExBlake2b(blake2::Blake2b);

#[verifier::external_type_specification]
#[verifier::external_body]
pub struct ExBlake3Hasher(Blake3State);

/// The bytes that an incremental Blake2b hasher has absorbed.
pub uninterp spec fn blake2_absorbed(h: blake2::Blake2b) -> Seq<u8>;

/// The bytes that an incremental Blake3 hasher has absorbed.
pub uninterp spec fn blake3_absorbed(h: Blake3State) -> Seq<u8>;

/// Relies on blake2::Blake2b::new (`Digest::new`): a hasher that has absorbed nothing.
#[verifier::external_body]
fn blake2_start() -> (r: blake2::Blake2b)
    ensures
        blake2_absorbed(r) == Seq::<u8>::empty(),
{
    blake2::Blake2b::new()
}

/// Relies on blake2::Blake2b::input (`Digest::input`): appends the bytes to
/// what the hasher has absorbed.
#[verifier::external_body]
fn blake2_update(h: &mut blake2::Blake2b, data: &[u8])
    ensures
        blake2_absorbed(*final(h)) == blake2_absorbed(*old(h)) + data@,
{
    h.input(data)
}

/// Relies on blake2::Blake2b::result (`Digest::result`): the 64-byte digest
/// of what was absorbed.
#[verifier::external_body]
fn blake2_finish(h: blake2::Blake2b) -> (r: Vec<u8>)
    ensures
        r@ == blake2b_sum(blake2_absorbed(h)),
        r@.len() == BLAKE2_DIGEST_LEN,
{
    h.result().to_vec()
}

/// Relies on blake3::Hasher::new: a hasher that has absorbed nothing.
#[verifier::external_body]
fn blake3_start() -> (r: Blake3State)
    ensures
        blake3_absorbed(r) == Seq::<u8>::empty(),
{
    Blake3State::new()
}

/// Relies on blake3::Hasher::update: appends the bytes to what the hasher has
/// absorbed.
#[verifier::external_body]
fn blake3_update(h: &mut Blake3State, data: &[u8])
    ensures
        blake3_absorbed(*final(h)) == blake3_absorbed(*old(h)) + data@,
{
    h.update(data);
}

/// Relies on blake3::Hasher::finalize_xof and OutputReader::fill: the first
/// `len` bytes of the extendable output over what was absorbed.
#[verifier::external_body]
fn blake3_finish(h: Blake3State, len: usize) -> (r: Vec<u8>)
    ensures
        r@ == blake3_sum(blake3_absorbed(h), len as nat),
        r@.len() == len,
{
    let mut out = vec![0u8; len];
    h.finalize_xof().fill(&mut out);
    out
}

/// Digest function used for chunk hash sums and the source checksum.
#[derive(Clone, Copy, Debug, PartialEq, Eq, Structural)]
pub enum HashFunction {
    Blake2,
    Blake3,
}

impl HashFunction {
    /// The function's name.
    pub fn name(&self) -> (r: &'static str)
        ensures
            *self is Blake2 ==> r@ == "Blake2"@,
            *self is Blake3 ==> r@ == "Blake3"@,
    {
        match self {
            HashFunction::Blake2 => "Blake2",
            HashFunction::Blake3 => "Blake3",
        }
    }
}

/// Hash sum of `data`: `len` bytes of the chosen digest.
pub open spec fn hash_sum_of(f: HashFunction, len: nat, data: Seq<u8>) -> Seq<u8> {
    match f {
        HashFunction::Blake2 => blake2b_sum(data).take(len as int),
        HashFunction::Blake3 => blake3_sum(data, len),
    }
}

/// Digest function and hash sum length.
#[derive(Clone, Copy, Debug, PartialEq, Eq, Structural)]
pub struct HasherBuilder {
    pub hash_length: usize,
    pub function: HashFunction,
}

impl HasherBuilder {
    /// Blake2 sums are at most 64 bytes long; Blake3 sums may have any length.
    pub open spec fn valid(self) -> bool {
        self.function is Blake2 ==> self.hash_length <= BLAKE2_DIGEST_LEN
    }

    /// A hasher that has absorbed nothing.
    pub fn build(self) -> (r: Hasher)
        ensures
            r.hash_length() == self.hash_length,
            r.function() == self.function,
            r.absorbed() == Seq::<u8>::empty(),
    {
        match self.function {
            HashFunction::Blake2 => Hasher::Blake2 {
                hash_length: self.hash_length,
                hasher: blake2_start(),
            },
            HashFunction::Blake3 => Hasher::Blake3 {
                hash_length: self.hash_length,
                hasher: blake3_start(),
            },
        }
    }

    /// Hash sum of `data` in one step.
    pub fn hash_sum(&self, data: &[u8]) -> (r: Vec<u8>)
        requires
            self.valid(),
        ensures
            r@ == hash_sum_of(self.function, self.hash_length as nat, data@),
            r@.len() == self.hash_length,
    {
        match self.function {
            HashFunction::Blake2 => {
                let full = blake2b_of(data);
                truncated(&full, self.hash_length)
            },
            HashFunction::Blake3 => blake3_of(data, self.hash_length),
        }
    }
}

/// The first `len` bytes of `v`.
fn truncated(v: &Vec<u8>, len: usize) -> (r: Vec<u8>)
    requires
        len <= v@.len(),
    ensures
        r@ == v@.take(len as int),
{
    let mut out: Vec<u8> = Vec::with_capacity(len);
    let mut i: usize = 0;
    while i < len
        invariant
            i <= len,
            len <= v@.len(),
            out@ == v@.take(i as int),
        decreases len - i,
    {
        out.push(v[i]);
        proof {
            assert(v@.take(i + 1) =~= v@.take(i as int).push(v@[i as int]));
        }
        i = i + 1;
    }
    out
}

/// Incremental hasher.
pub enum Hasher {
    Blake2 { hash_length: usize, hasher: blake2::Blake2b },
    Blake3 { hash_length: usize, hasher: Blake3State },
}

impl Hasher {
    pub open spec fn hash_length(&self) -> usize {
        match self {
            Hasher::Blake2 { hash_length, .. } => *hash_length,
            Hasher::Blake3 { hash_length, .. } => *hash_length,
        }
    }

    pub open spec fn function(&self) -> HashFunction {
        match self {
            Hasher::Blake2 { .. } => HashFunction::Blake2,
            Hasher::Blake3 { .. } => HashFunction::Blake3,
        }
    }

    /// Every byte absorbed so far.
    pub open spec fn absorbed(&self) -> Seq<u8> {
        match self {
            Hasher::Blake2 { hasher, .. } => blake2_absorbed(*hasher),
            Hasher::Blake3 { hasher, .. } => blake3_absorbed(*hasher),
        }
    }

    /// Absorbs more bytes.
    pub fn input(&mut self, data: &[u8])
        ensures
            final(self).hash_length() == old(self).hash_length(),
            final(self).function() == old(self).function(),
            final(self).absorbed() == old(self).absorbed() + data@,
    {
        match self {
            Hasher::Blake2 { hasher, .. } => {
                blake2_update(hasher, data);
            },
            Hasher::Blake3 { hasher, .. } => {
                blake3_update(hasher, data);
            },
        }
    }

    /// Ends hashing: the hash sum of everything absorbed.
    pub fn finilize(self) -> (r: Vec<u8>)
        requires
            self.function() is Blake2 ==> self.hash_length() <= BLAKE2_DIGEST_LEN,
        ensures
            r@ == hash_sum_of(self.function(), self.hash_length() as nat, self.absorbed()),
            r@.len() == self.hash_length(),
    {
        match self {
            Hasher::Blake2 { hasher, hash_length, .. } => {
                let full = blake2_finish(hasher);
                truncated(&full, hash_length)
            },
            Hasher::Blake3 { hasher, hash_length, .. } => blake3_finish(hasher, hash_length),
        }
    }

    /// Absorbs `data` and ends hashing.
    pub fn hash_sum(self, data: &[u8]) -> (r: Vec<u8>)
        requires
            self.function() is Blake2 ==> self.hash_length() <= BLAKE2_DIGEST_LEN,
        ensures
            r@ == hash_sum_of(self.function(), self.hash_length() as nat, self.absorbed() + data@),
            r@.len() == self.hash_length(),
    {
        let mut h = self;
        h.input(data);
        h.finilize()
    }
}

/// Law: a shorter Blake2 hash sum is a prefix of a longer one of the same data.
pub proof fn lemma_blake2_prefix(data: Seq<u8>, l1: nat, l2: nat)
    requires
        l1 <= l2 <= BLAKE2_DIGEST_LEN,
        blake2b_sum(data).len() == BLAKE2_DIGEST_LEN,
    ensures
        hash_sum_of(HashFunction::Blake2, l1, data) == hash_sum_of(HashFunction::Blake2, l2, data).take(
            l1 as int,
        ),
{
    assert(blake2b_sum(data).take(l1 as int) =~= blake2b_sum(data).take(l2 as int).take(l1 as int));
}

/// Law: the hash sum depends only on the bytes absorbed, not on how they were
/// split between calls of `Hasher::input`: feeding `a` then `b` gives the sum
/// of `a + b`, and an empty input changes nothing.
pub proof fn lemma_split_input(f: HashFunction, len: nat, a: Seq<u8>, b: Seq<u8>)
    ensures
        hash_sum_of(f, len, Seq::<u8>::empty() + a + b) == hash_sum_of(f, len, a + b),
        hash_sum_of(f, len, a + Seq::<u8>::empty()) == hash_sum_of(f, len, a),
{
    assert(Seq::<u8>::empty() + a + b =~= a + b);
    assert(a + Seq::<u8>::empty() =~= a);
}

} // verus!
