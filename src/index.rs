//! An index from hash sums to the positions at which they were recorded,
//! bucketed by the first eight bytes of the hash sum.
use std::collections::HashMap;
use vstd::prelude::*;

verus! {

broadcast use vstd::std_specs::hash::group_hash_axioms;

/// The first `n` bytes of `h`, big-endian.
pub open spec fn bucket_key_n(h: Seq<u8>, n: int) -> u64
    decreases n,
{
    if n <= 0 {
        0
    } else {
        (bucket_key_n(h, n - 1) << 8u64) | (h[n - 1] as u64)
    }
}

/// The bucket of a hash sum: its first eight bytes (fewer for a shorter one).
pub open spec fn bucket_key(h: Seq<u8>) -> u64 {
    bucket_key_n(
        h,
        if h.len() < 8 {
            h.len() as int
        } else {
            8
        },
    )
}

fn bucket_key_of(h: &[u8]) -> (r: u64)
    ensures
        r == bucket_key(h@),
{
    let n: usize = if h.len() < 8 {
        h.len()
    } else {
        8
    };
    let mut k: u64 = 0;
    let mut i: usize = 0;
    while i < n
        invariant
            i <= n,
            n <= h@.len(),
            n == (if h@.len() < 8 {
                h@.len() as int
            } else {
                8
            }),
            k == bucket_key_n(h@, i as int),
        decreases n - i,
    {
        k = (k << 8u64) | (h[i] as u64);
        i = i + 1;
    }
    k
}

/// Positions of recorded hash sums, found through their bucket.
pub struct HashIndex {
    buckets: HashMap<u64, Vec<u32>>,
    count: usize,
    keys: Ghost<Seq<Seq<u8>>>,
}

impl HashIndex {
    /// The hash sums recorded, by position.
    pub closed spec fn keys(&self) -> Seq<Seq<u8>> {
        self.keys@
    }

    pub closed spec fn wf(&self) -> bool {
        &&& self.keys@.len() <= u32::MAX
        &&& self.count == self.keys@.len()
        &&& forall|j: int|
            0 <= j < self.keys@.len() ==> self.buckets@.contains_key(
                bucket_key(#[trigger] self.keys@[j]),
            ) && self.buckets@[bucket_key(self.keys@[j])]@.contains(j as u32)
        &&& forall|k: u64, x: int|
            self.buckets@.contains_key(k) && 0 <= x < self.buckets@[k]@.len()
                ==> #[trigger] self.buckets@[k]@[x] < self.keys@.len()
    }

    /// An index with nothing recorded.
    pub fn new() -> (r: HashIndex)
        ensures
            r.wf(),
            r.keys() == Seq::<Seq<u8>>::empty(),
    {
        HashIndex { buckets: HashMap::new(), count: 0, keys: Ghost(Seq::empty()) }
    }

    /// Records `h` at the next position.
    pub fn insert(&mut self, h: &[u8])
        requires
            old(self).wf(),
            old(self).keys().len() < u32::MAX,
        ensures
            final(self).wf(),
            final(self).keys() == old(self).keys().push(h@),
    {
        let ghost old_buckets = self.buckets@;
        let ghost n = self.keys@.len();
        let k = bucket_key_of(h);
        let mut bucket = match self.buckets.remove(&k) {
            Some(b) => b,
            None => Vec::new(),
        };
        let ghost old_bucket = bucket@;
        bucket.push(self.count as u32);
        let ghost new_bucket = bucket;
        self.buckets.insert(k, bucket);
        self.count = self.count + 1;
        self.keys = Ghost(self.keys@.push(h@));
        proof {
            assert(self.buckets@ == old_buckets.remove(k).insert(k, new_bucket));
            assert(new_bucket@ == old_bucket.push(n as u32));
            assert(old_buckets.contains_key(k) ==> old_bucket == old_buckets[k]@);
            assert forall|j: int| 0 <= j < self.keys@.len() implies self.buckets@.contains_key(
                bucket_key(#[trigger] self.keys@[j]),
            ) && self.buckets@[bucket_key(self.keys@[j])]@.contains(j as u32) by {
                if j == n {
                    assert(self.buckets@[k]@[old_bucket.len() as int] == n as u32);
                } else {
                    let kj = bucket_key(self.keys@[j]);
                    assert(self.keys@[j] == old(self).keys@[j]);
                    if kj == k {
                        let x = choose|x: int|
                            0 <= x < old_buckets[k]@.len() && old_buckets[k]@[x] == j as u32;
                        assert(self.buckets@[k]@[x] == j as u32);
                    }
                }
            }
            assert forall|k2: u64, x: int|
                self.buckets@.contains_key(k2) && 0 <= x < self.buckets@[k2]@.len()
                    implies #[trigger] self.buckets@[k2]@[x] < self.keys@.len() by {
                if k2 == k {
                    if x < old_bucket.len() {
                        assert(old_buckets.contains_key(k));
                        assert(old_buckets[k]@[x] < n);
                    }
                } else {
                    assert(old_buckets[k2]@[x] < n);
                }
            }
        }
    }

    /// Positions that may hold `h`: every position that does is among them.
    pub fn candidates(&self, h: &[u8]) -> (r: Vec<u32>)
        requires
            self.wf(),
        ensures
            forall|j: int| 0 <= j < self.keys().len() && self.keys()[j] == h@ ==> r@.contains(j as u32),
            forall|x: int| 0 <= x < r@.len() ==> #[trigger] r@[x] < self.keys().len(),
    {
        let k = bucket_key_of(h);
        match self.buckets.get(&k) {
            None => {
                proof {
                    assert forall|j: int| 0 <= j < self.keys().len() && self.keys()[j] == h@ implies false by {
                        assert(self.buckets@.contains_key(bucket_key(self.keys@[j])));
                    }
                }
                Vec::new()
            },
            Some(b) => {
                let mut out: Vec<u32> = Vec::with_capacity(b.len());
                let mut i: usize = 0;
                while i < b.len()
                    invariant
                        i <= b@.len(),
                        out@ == b@.take(i as int),
                    decreases b@.len() - i,
                {
                    out.push(b[i]);
                    assert(b@.take(i + 1) =~= b@.take(i as int).push(b@[i as int]));
                    i = i + 1;
                }
                assert(b@.take(b@.len() as int) =~= b@);
                proof {
                    assert(*b == self.buckets@[k]);
                    assert forall|x: int| 0 <= x < out@.len() implies #[trigger] out@[x]
                        < self.keys().len() by {
                        assert(self.buckets@[k]@[x] < self.keys@.len());
                    }
                }
                out
            },
        }
    }
}

} // verus!
