//! Chunking: cutting a byte stream into content-defined or fixed-size chunks.
//!
//! `chunks_of` is the mathematical definition of the chunks of a whole
//! stream. `Chunker` is the streaming engine: it is fed bytes in pieces of any
//! size and hands out chunks as soon as their end is decided, and its
//! contracts show that what it hands out is always `chunks_of` the bytes fed.
use crate::error::Error;
use crate::rolling::{buzhash_digest, rollsum_digest, BuzHash, RollSum};
use vstd::arithmetic::power2::{lemma_pow2_unfold, pow2};
use vstd::prelude::*;
use vstd::slice::slice_subrange;

verus! {

/// Number of low bits of the rolling hash that must all be set at a boundary.
#[derive(Clone, Copy, Debug, PartialEq, Eq, Structural)]
pub struct FilterBits(pub u32);

/// Parameters of a rolling-hash chunker.
#[derive(Clone, Copy, Debug, PartialEq, Eq, Structural)]
pub struct FilterConfig {
    pub filter_bits: FilterBits,
    pub min_chunk_size: usize,
    pub max_chunk_size: usize,
    pub window_size: usize,
}

/// Chunker configuration.
#[derive(Clone, Copy, Debug, PartialEq, Eq, Structural)]
pub enum Config {
    BuzHash(FilterConfig),
    RollSum(FilterConfig),
    FixedSize(usize),
}

impl FilterBits {
    /// Filter bits for an average chunk size: the largest `b` with `2^b <= size`,
    /// at most 31.
    pub fn from_size(size: usize) -> (r: FilterBits)
        ensures
            r.0 <= 31,
            size >= 1 ==> pow2(r.0 as nat) <= size,
            r.0 < 31 ==> size < pow2((r.0 + 1) as nat),
    {
        let mut bits: u32 = 0;
        let mut p: u64 = 1;
        proof {
            reveal(vstd::arithmetic::power::pow);
        }
        assert(pow2(0) == 1);
        while bits < 31 && p * 2 <= size as u64
            invariant
                bits <= 31,
                p == pow2(bits as nat),
                p <= 0x8000_0000,
                bits == 0 || p <= size,
            decreases 31 - bits,
        {
            proof {
                lemma_pow2_unfold((bits + 1) as nat);
            }
            p = p * 2;
            bits = bits + 1;
            proof {
                vstd::arithmetic::power2::lemma2_to64();
                if bits < 31 {
                    vstd::arithmetic::power2::lemma_pow2_strictly_increases(bits as nat, 31);
                }
            }
        }
        proof {
            lemma_pow2_unfold((bits + 1) as nat);
        }
        FilterBits(bits)
    }
}

impl FilterConfig {
    pub open spec fn valid(self) -> bool {
        &&& 1 <= self.filter_bits.0 <= 31
        &&& self.min_chunk_size <= self.max_chunk_size
        &&& self.window_size >= 1
    }
}

impl Config {
    pub open spec fn valid(self) -> bool {
        match self {
            Config::BuzHash(f) => f.valid(),
            Config::RollSum(f) => f.valid(),
            Config::FixedSize(n) => n >= 1,
        }
    }

    /// Whether the configuration meets its invariants.
    pub fn is_valid(&self) -> (r: bool)
        ensures
            r == self.valid(),
    {
        match self {
            Config::BuzHash(f) => 1 <= f.filter_bits.0 && f.filter_bits.0 <= 31
                && f.min_chunk_size <= f.max_chunk_size && f.window_size >= 1,
            Config::RollSum(f) => 1 <= f.filter_bits.0 && f.filter_bits.0 <= 31
                && f.min_chunk_size <= f.max_chunk_size && f.window_size >= 1,
            Config::FixedSize(n) => *n >= 1,
        }
    }
}

/// `(1 << bits) - 1`.
pub open spec fn filter_mask(bits: u32) -> u32 {
    ((1u32 << bits) - 1) as u32
}

/// Rolling digest of a window under the configuration's hash.
pub open spec fn window_digest(c: Config, w: Seq<u8>) -> u32 {
    match c {
        Config::RollSum(_) => rollsum_digest(w),
        _ => buzhash_digest(w),
    }
}

/// Whether a chunk starting at `s[0]` may end after its first `len` bytes.
pub open spec fn is_boundary(c: Config, s: Seq<u8>, len: int) -> bool {
    match c {
        Config::FixedSize(n) => len >= n,
        Config::BuzHash(f) => rolling_boundary(c, f, s, len),
        Config::RollSum(f) => rolling_boundary(c, f, s, len),
    }
}

pub open spec fn rolling_boundary(c: Config, f: FilterConfig, s: Seq<u8>, len: int) -> bool {
    &&& len >= 1
    &&& len >= f.min_chunk_size
    &&& (len >= f.max_chunk_size || (len >= f.window_size && window_digest(
        c,
        s.subrange(len - f.window_size, len),
    ) & filter_mask(f.filter_bits.0) == filter_mask(f.filter_bits.0)))
}

/// Smallest `len` in `from..=s.len()` that is a boundary, or `s.len() + 1`.
pub open spec fn first_boundary_from(c: Config, s: Seq<u8>, from: int) -> int
    decreases s.len() + 1 - from,
{
    if from > s.len() {
        s.len() + 1int
    } else if is_boundary(c, s, from) {
        from
    } else {
        first_boundary_from(c, s, from + 1)
    }
}

/// Length of the first chunk of `s` if its end lies within `s`; otherwise `s.len() + 1`.
pub open spec fn first_cut(c: Config, s: Seq<u8>) -> int {
    first_boundary_from(c, s, 1)
}

/// The chunks of a whole stream.
pub open spec fn chunks_of(c: Config, s: Seq<u8>) -> Seq<Seq<u8>>
    decreases s.len(),
{
    if s.len() == 0 {
        Seq::empty()
    } else {
        let l = first_cut(c, s);
        if 1 <= l && l < s.len() {
            seq![s.take(l)] + chunks_of(c, s.skip(l))
        } else {
            seq![s]
        }
    }
}

/// Concatenation of chunks.
pub open spec fn concat(cs: Seq<Seq<u8>>) -> Seq<u8>
    decreases cs.len(),
{
    if cs.len() == 0 {
        Seq::empty()
    } else {
        concat(cs.drop_last()) + cs.last()
    }
}

/// Stream offset of chunk `i`: the total length of the chunks before it.
pub open spec fn chunk_offset(cs: Seq<Seq<u8>>, i: int) -> int {
    concat(cs.take(i)).len() as int
}

pub proof fn lemma_concat_push(cs: Seq<Seq<u8>>, x: Seq<u8>)
    ensures
        concat(cs.push(x)) == concat(cs) + x,
{
    assert(cs.push(x).drop_last() =~= cs);
}

pub proof fn lemma_concat_prepend(x: Seq<u8>, cs: Seq<Seq<u8>>)
    ensures
        concat(seq![x] + cs) == x + concat(cs),
    decreases cs.len(),
{
    if cs.len() == 0 {
        assert(seq![x] + cs =~= seq![x]);
        assert(seq![x].drop_last() =~= Seq::<Seq<u8>>::empty());
        assert(concat(Seq::<Seq<u8>>::empty()) =~= Seq::<u8>::empty());
        assert(concat(seq![x]) == concat(seq![x].drop_last()) + x);
        assert(x + Seq::<u8>::empty() =~= x);
        assert(Seq::<u8>::empty() + x =~= x);
    } else {
        assert((seq![x] + cs).drop_last() =~= seq![x] + cs.drop_last());
        assert((seq![x] + cs).last() == cs.last());
        lemma_concat_prepend(x, cs.drop_last());
        assert(x + concat(cs.drop_last()) + cs.last() =~= x + (concat(cs.drop_last()) + cs.last()));
    }
}

pub proof fn lemma_concat_append(a: Seq<Seq<u8>>, b: Seq<Seq<u8>>)
    ensures
        concat(a + b) == concat(a) + concat(b),
    decreases b.len(),
{
    if b.len() == 0 {
        assert(a + b =~= a);
        assert(concat(a) + Seq::<u8>::empty() =~= concat(a));
    } else {
        assert((a + b).drop_last() =~= a + b.drop_last());
        lemma_concat_append(a, b.drop_last());
        assert(concat(a) + concat(b.drop_last()) + b.last() =~= concat(a) + (concat(
            b.drop_last(),
        ) + b.last()));
    }
}

proof fn lemma_first_boundary_range(c: Config, s: Seq<u8>, from: int)
    requires
        from >= 1,
    ensures
        from <= first_boundary_from(c, s, from) <= s.len() + 1 || from > s.len() + 1,
        first_boundary_from(c, s, from) <= s.len() ==> is_boundary(
            c,
            s,
            first_boundary_from(c, s, from),
        ),
        forall|l: int|
            from <= l < first_boundary_from(c, s, from) && l <= s.len() ==> !is_boundary(c, s, l),
    decreases s.len() + 1 - from,
{
    if from <= s.len() && !is_boundary(c, s, from) {
        lemma_first_boundary_range(c, s, from + 1);
    }
}

/// Facts about the first cut: it is a boundary, nothing before it is, and it is at least 1.
pub proof fn lemma_first_cut(c: Config, s: Seq<u8>)
    ensures
        1 <= first_cut(c, s) <= s.len() + 1,
        first_cut(c, s) <= s.len() ==> is_boundary(c, s, first_cut(c, s)),
        forall|l: int| 1 <= l < first_cut(c, s) && l <= s.len() ==> !is_boundary(c, s, l),
{
    lemma_first_boundary_range(c, s, 1);
}

/// Whether a chunk may end at `len` depends only on the first `len` bytes.
pub proof fn lemma_boundary_prefix(c: Config, s: Seq<u8>, t: Seq<u8>, len: int)
    requires
        0 <= len <= s.len(),
        s.len() <= t.len(),
        t.take(s.len() as int) == s,
    ensures
        is_boundary(c, s, len) == is_boundary(c, t, len),
{
    match c {
        Config::FixedSize(_) => {},
        Config::BuzHash(f) => {
            if len >= f.window_size {
                assert(s.subrange(len - f.window_size, len) =~= t.subrange(len - f.window_size, len));
            }
        },
        Config::RollSum(f) => {
            if len >= f.window_size {
                assert(s.subrange(len - f.window_size, len) =~= t.subrange(len - f.window_size, len));
            }
        },
    }
}

/// A cut found in a prefix of the stream is the cut of every extension of it;
/// a prefix without a cut has none in it for any extension either.
pub proof fn lemma_first_cut_prefix(c: Config, s: Seq<u8>, t: Seq<u8>)
    requires
        s.len() <= t.len(),
        t.take(s.len() as int) == s,
    ensures
        first_cut(c, s) <= s.len() ==> first_cut(c, t) == first_cut(c, s),
        first_cut(c, s) > s.len() ==> first_cut(c, t) > s.len(),
{
    lemma_first_cut(c, s);
    lemma_first_cut(c, t);
    let ls = first_cut(c, s);
    let lt = first_cut(c, t);
    if ls <= s.len() {
        lemma_boundary_prefix(c, s, t, ls);
        if lt < ls {
            lemma_boundary_prefix(c, s, t, lt);
        }
    } else {
        if lt <= s.len() {
            lemma_boundary_prefix(c, s, t, lt);
        }
    }
}

/// Unfolding the chunks of a stream whose first chunk is decided within `b`.
pub proof fn lemma_chunks_unfold(c: Config, b: Seq<u8>, rest: Seq<u8>)
    requires
        first_cut(c, b) <= b.len(),
    ensures
        chunks_of(c, b + rest) == seq![b.take(first_cut(c, b))] + chunks_of(
            c,
            b.skip(first_cut(c, b)) + rest,
        ),
{
    let t = b + rest;
    assert(t.take(b.len() as int) =~= b);
    lemma_first_cut_prefix(c, b, t);
    lemma_first_cut(c, b);
    let l = first_cut(c, b);
    assert(t.take(l) =~= b.take(l));
    assert(t.skip(l) =~= b.skip(l) + rest);
    if l == t.len() {
        assert(b.skip(l) + rest =~= Seq::<u8>::empty());
        assert(chunks_of(c, Seq::<u8>::empty()) =~= Seq::<Seq<u8>>::empty());
        assert(t.take(l) =~= t);
        assert(seq![b.take(l)] + Seq::<Seq<u8>>::empty() =~= seq![b.take(l)]);
    }
}

/// The chunks of a stream in which no cut is decided form a single chunk.
pub proof fn lemma_chunks_single(c: Config, b: Seq<u8>)
    requires
        b.len() > 0,
        first_cut(c, b) >= b.len(),
    ensures
        chunks_of(c, b) == seq![b],
{
}

/// Law: concatenating the chunks of a stream gives the stream back.
pub proof fn lemma_chunks_concat(c: Config, s: Seq<u8>)
    ensures
        concat(chunks_of(c, s)) == s,
    decreases s.len(),
{
    if s.len() == 0 {
        assert(concat(Seq::<Seq<u8>>::empty()) =~= s);
    } else {
        let l = first_cut(c, s);
        if 1 <= l && l < s.len() {
            assert(chunks_of(c, s) == seq![s.take(l)] + chunks_of(c, s.skip(l)));
            lemma_chunks_concat(c, s.skip(l));
            lemma_concat_prepend(s.take(l), chunks_of(c, s.skip(l)));
            assert(s.take(l) + s.skip(l) =~= s);
        } else {
            assert(chunks_of(c, s) == seq![s]);
            assert(seq![s].drop_last() =~= Seq::<Seq<u8>>::empty());
            assert(concat(Seq::<Seq<u8>>::empty()) =~= Seq::<u8>::empty());
            assert(concat(seq![s]) == concat(seq![s].drop_last()) + s);
            assert(Seq::<u8>::empty() + s =~= s);
        }
    }
}

/// Every chunk is non-empty.
pub proof fn lemma_chunks_nonempty(c: Config, s: Seq<u8>)
    ensures
        forall|i: int| 0 <= i < chunks_of(c, s).len() ==> #[trigger] chunks_of(c, s)[i].len() > 0,
    decreases s.len(),
{
    if s.len() > 0 {
        let l = first_cut(c, s);
        lemma_first_cut(c, s);
        if 1 <= l && l < s.len() {
            lemma_chunks_nonempty(c, s.skip(l));
            let cs = chunks_of(c, s);
            assert forall|i: int| 0 <= i < cs.len() implies #[trigger] cs[i].len() > 0 by {
                if i > 0 {
                    assert(cs[i] == chunks_of(c, s.skip(l))[i - 1]);
                }
            }
        }
    }
}

/// Law: chunk offsets start at 0 and grow strictly from one chunk to the
/// next, each by the length of the chunk before it.
pub proof fn lemma_offsets_increasing(c: Config, s: Seq<u8>)
    ensures
        chunks_of(c, s).len() > 0 ==> chunk_offset(chunks_of(c, s), 0) == 0,
        forall|i: int, j: int|
            0 <= i < j < chunks_of(c, s).len() ==> chunk_offset(chunks_of(c, s), i)
                < chunk_offset(chunks_of(c, s), j),
        forall|i: int|
            0 <= i < chunks_of(c, s).len() ==> #[trigger] chunk_offset(chunks_of(c, s), i + 1)
                == chunk_offset(chunks_of(c, s), i) + chunks_of(c, s)[i].len(),
{
    let cs = chunks_of(c, s);
    lemma_chunks_nonempty(c, s);
    assert(cs.take(0) =~= Seq::<Seq<u8>>::empty());
    assert forall|i: int| 0 <= i < cs.len() implies #[trigger] chunk_offset(cs, i + 1)
        == chunk_offset(cs, i) + cs[i].len() by {
        assert(cs.take(i + 1) =~= cs.take(i).push(cs[i]));
        lemma_concat_push(cs.take(i), cs[i]);
    }
    assert forall|i: int, j: int| 0 <= i < j < cs.len() implies chunk_offset(cs, i) < chunk_offset(
        cs,
        j,
    ) by {
        lemma_offsets_step(cs, i, j);
    }
}

proof fn lemma_offsets_step(cs: Seq<Seq<u8>>, i: int, j: int)
    requires
        0 <= i < j <= cs.len(),
        forall|k: int| 0 <= k < cs.len() ==> #[trigger] cs[k].len() > 0,
    ensures
        chunk_offset(cs, i) < chunk_offset(cs, j),
    decreases j - i,
{
    assert(cs.take(j) =~= cs.take(j - 1).push(cs[j - 1]));
    lemma_concat_push(cs.take(j - 1), cs[j - 1]);
    if j - 1 > i {
        lemma_offsets_step(cs, i, j - 1);
    }
}


/// The parameters of a rolling-hash configuration.
pub open spec fn filter_config(c: Config) -> FilterConfig {
    match c {
        Config::BuzHash(f) => f,
        Config::RollSum(f) => f,
        Config::FixedSize(_) => FilterConfig {
            filter_bits: FilterBits(0),
            min_chunk_size: 0,
            max_chunk_size: 0,
            window_size: 0,
        },
    }
}

proof fn lemma_single_chunk_when_no_early_boundary(c: Config, s: Seq<u8>)
    requires
        s.len() > 0,
        forall|l: int| 1 <= l < s.len() ==> !is_boundary(c, s, l),
    ensures
        chunks_of(c, s) == seq![s],
{
    lemma_first_cut(c, s);
    if first_cut(c, s) < s.len() {
        assert(is_boundary(c, s, first_cut(c, s)));
    }
}

/// Law: with a rolling hash, every chunk is at most `max_chunk_size` bytes
/// long, and every chunk but the last is at least `min_chunk_size` bytes long.
pub proof fn lemma_rolling_chunk_sizes(c: Config, s: Seq<u8>)
    requires
        c.valid(),
        !(c is FixedSize),
        filter_config(c).max_chunk_size >= 1,
    ensures
        forall|i: int|
            0 <= i < chunks_of(c, s).len() ==> #[trigger] chunks_of(c, s)[i].len()
                <= filter_config(c).max_chunk_size,
        forall|i: int|
            0 <= i < chunks_of(c, s).len() - 1 ==> #[trigger] chunks_of(c, s)[i].len()
                >= filter_config(c).min_chunk_size,
    decreases s.len(),
{
    let f = filter_config(c);
    if s.len() > 0 {
        lemma_first_cut(c, s);
        let l = first_cut(c, s);
        if f.max_chunk_size <= s.len() {
            assert(is_boundary(c, s, f.max_chunk_size as int));
        }
        if 1 <= l && l < s.len() {
            lemma_rolling_chunk_sizes(c, s.skip(l));
            let cs = chunks_of(c, s);
            let rest = chunks_of(c, s.skip(l));
            assert(cs == seq![s.take(l)] + rest);
            assert forall|i: int| 0 <= i < cs.len() implies #[trigger] cs[i].len()
                <= f.max_chunk_size by {
                if i > 0 {
                    assert(cs[i] == rest[i - 1]);
                }
            }
            assert forall|i: int| 0 <= i < cs.len() - 1 implies #[trigger] cs[i].len()
                >= f.min_chunk_size by {
                if i > 0 {
                    assert(cs[i] == rest[i - 1]);
                } else {
                    assert(is_boundary(c, s, l));
                }
            }
        }
    }
}

/// Law: with a rolling hash, a source shorter than the hash window (and no
/// longer than the maximum chunk size) is one chunk holding all of it.
pub proof fn lemma_short_source_single_chunk(c: Config, s: Seq<u8>)
    requires
        c.valid(),
        !(c is FixedSize),
        0 < s.len() < filter_config(c).window_size,
        s.len() <= filter_config(c).max_chunk_size,
    ensures
        chunks_of(c, s) == seq![s],
{
    lemma_single_chunk_when_no_early_boundary(c, s);
}

/// Law: a source exactly `max_chunk_size` long, in which the rolling hash
/// matches the mask at no length from `min_chunk_size` on, is one chunk: the
/// forced cut at the end of input gives a single chunk and nothing after it.
pub proof fn lemma_max_size_source_single_chunk(c: Config, s: Seq<u8>)
    requires
        c.valid(),
        !(c is FixedSize),
        s.len() == filter_config(c).max_chunk_size,
        s.len() > 0,
        forall|l: int|
            filter_config(c).min_chunk_size <= l < s.len() && filter_config(c).window_size <= l
                ==> #[trigger] window_digest(c, s.subrange(l - filter_config(c).window_size, l))
                & filter_mask(filter_config(c).filter_bits.0) != filter_mask(
                filter_config(c).filter_bits.0,
            ),
    ensures
        chunks_of(c, s) == seq![s],
{
    assert forall|l: int| 1 <= l < s.len() implies !is_boundary(c, s, l) by {
        if l >= filter_config(c).min_chunk_size && l >= filter_config(c).window_size {
            assert(window_digest(c, s.subrange(l - filter_config(c).window_size, l)) & filter_mask(
                filter_config(c).filter_bits.0,
            ) != filter_mask(filter_config(c).filter_bits.0));
        }
    }
    lemma_single_chunk_when_no_early_boundary(c, s);
}

/// Law: the fixed-size chunker cuts chunks of exactly `n` bytes; only the last
/// may be shorter.
pub proof fn lemma_fixed_size_chunks(n: usize, s: Seq<u8>)
    requires
        n >= 1,
    ensures
        forall|i: int|
            0 <= i < chunks_of(Config::FixedSize(n), s).len() - 1 ==> #[trigger] chunks_of(
                Config::FixedSize(n),
                s,
            )[i].len() == n,
        chunks_of(Config::FixedSize(n), s).len() > 0 ==> 0 < chunks_of(
            Config::FixedSize(n),
            s,
        ).last().len() <= n,
        chunks_of(Config::FixedSize(n), s).len() == (s.len() + n - 1) / (n as int),
    decreases s.len(),
{
    let c = Config::FixedSize(n);
    if s.len() > 0 {
        lemma_first_cut(c, s);
        let l = first_cut(c, s);
        if n < s.len() {
            assert(is_boundary(c, s, n as int));
            assert(l == n) by {
                if l < n {
                    assert(is_boundary(c, s, l));
                }
            }
            lemma_fixed_size_chunks(n, s.skip(l));
            let rest = chunks_of(c, s.skip(l));
            assert(chunks_of(c, s) == seq![s.take(l)] + rest);
            assert forall|i: int| 0 <= i < chunks_of(c, s).len() - 1 implies #[trigger] chunks_of(
                c,
                s,
            )[i].len() == n by {
                if i > 0 {
                    assert(chunks_of(c, s)[i] == rest[i - 1]);
                }
            }
            assert((s.len() - n + n - 1) / (n as int) + 1 == (s.len() + n - 1) / (n as int)) by {
                vstd::arithmetic::div_mod::lemma_div_plus_one((s.len() - 1) as int, n as int);
                assert(s.len() - n + n - 1 == s.len() - 1);
                assert(s.len() + n - 1 == (s.len() - 1) + n);
            }
            if rest.len() > 0 {
                assert(chunks_of(c, s).last() == rest.last());
            }
        } else {
            assert(forall|l2: int| 1 <= l2 < s.len() ==> !is_boundary(c, s, l2));
            lemma_single_chunk_when_no_early_boundary(c, s);
            assert((s.len() + n - 1) / (n as int) == 1) by {
                vstd::arithmetic::div_mod::lemma_div_plus_one((s.len() - 1) as int, n as int);
                vstd::arithmetic::div_mod::lemma_basic_div((s.len() - 1) as int, n as int);
            }
        }
    } else {
        assert(chunks_of(c, s).len() == 0);
        assert((n - 1) / (n as int) == 0) by {
            vstd::arithmetic::div_mod::lemma_basic_div((n - 1) as int, n as int);
        }
    }
}

#[verifier::external_type_specification]
#[verifier::external_body]
pub struct ExBytesMut(bytes::BytesMut);

/// The bytes that a buffer holds.
pub uninterp spec fn buffer_contents(b: bytes::BytesMut) -> Seq<u8>;

/// Relies on bytes::BytesMut::with_capacity: a new buffer holds no bytes.
#[verifier::external_body]
fn buffer_with_capacity(capacity: usize) -> (r: bytes::BytesMut)
    ensures
        buffer_contents(r) == Seq::<u8>::empty(),
{
    bytes::BytesMut::with_capacity(capacity)
}

/// Relies on bytes::BytesMut::extend_from_slice: the bytes are appended at the end.
#[verifier::external_body]
fn buffer_extend(b: &mut bytes::BytesMut, data: &[u8])
    requires
        buffer_contents(*old(b)).len() + data@.len() <= usize::MAX,
    ensures
        buffer_contents(*final(b)) == buffer_contents(*old(b)) + data@,
{
    b.extend_from_slice(data)
}

/// Relies on bytes::BytesMut::split_to: the first `at` bytes leave the buffer
/// and are returned.
#[verifier::external_body]
fn buffer_split_to(b: &mut bytes::BytesMut, at: usize) -> (r: Vec<u8>)
    requires
        at <= buffer_contents(*old(b)).len(),
    ensures
        r@ == buffer_contents(*old(b)).take(at as int),
        buffer_contents(*final(b)) == buffer_contents(*old(b)).skip(at as int),
{
    b.split_to(at).to_vec()
}

/// Relies on the Deref of bytes::BytesMut: a slice of the bytes it holds.
#[verifier::external_body]
fn buffer_bytes(b: &bytes::BytesMut) -> (r: &[u8])
    ensures
        r@ == buffer_contents(*b),
{
    &b[..]
}

/// Size in which a buffer grows; the source is read in blocks of this size.
pub const REFILL_SIZE: usize = 1048576;

/// Mask that a rolling configuration compares the hash against.
pub open spec fn config_mask(c: Config) -> u32 {
    match c {
        Config::BuzHash(f) => filter_mask(f.filter_bits.0),
        Config::RollSum(f) => filter_mask(f.filter_bits.0),
        Config::FixedSize(_) => 0,
    }
}

fn compute_mask(c: &Config) -> (r: u32)
    requires
        c.valid(),
    ensures
        r == config_mask(*c),
{
    let bits: u32 = match c {
        Config::BuzHash(f) => f.filter_bits.0,
        Config::RollSum(f) => f.filter_bits.0,
        Config::FixedSize(_) => {
            return 0;
        },
    };
    assert(1u32 << bits >= 1) by (bit_vector)
        requires
            1 <= bits <= 31,
    ;
    (1u32 << bits) - 1
}

/// A rolling hash of the kind the configuration selects.
enum WindowHasher {
    RollSum(RollSum),
    BuzHash(BuzHash),
}

impl WindowHasher {
    spec fn window(&self) -> Seq<u8> {
        match self {
            WindowHasher::RollSum(h) => h.window(),
            WindowHasher::BuzHash(h) => h.window(),
        }
    }

    spec fn wf(&self, c: Config) -> bool {
        match self {
            WindowHasher::RollSum(h) => c is RollSum && h.wf() && h.window_size_spec() == h.window().len(),
            WindowHasher::BuzHash(h) => c is BuzHash && h.wf() && h.window_size_spec() == h.window().len(),
        }
    }

    fn new(c: &Config, window: &[u8]) -> (r: Self)
        requires
            !(*c is FixedSize),
        ensures
            r.wf(*c),
            r.window() == window@,
    {
        match c {
            Config::RollSum(_) => WindowHasher::RollSum(RollSum::new(window)),
            _ => WindowHasher::BuzHash(BuzHash::new(window)),
        }
    }

    fn digest(&self, Ghost(c): Ghost<Config>) -> (r: u32)
        requires
            self.wf(c),
        ensures
            r == window_digest(c, self.window()),
    {
        match self {
            WindowHasher::RollSum(h) => h.digest(),
            WindowHasher::BuzHash(h) => h.digest(),
        }
    }

    fn roll(&mut self, Ghost(c): Ghost<Config>, out_byte: u8, in_byte: u8)
        requires
            old(self).wf(c),
            old(self).window().len() > 0,
            out_byte == old(self).window()[0],
        ensures
            final(self).wf(c),
            final(self).window() == old(self).window().drop_first().push(in_byte),
    {
        match self {
            WindowHasher::RollSum(h) => h.roll(out_byte, in_byte),
            WindowHasher::BuzHash(h) => h.roll(out_byte, in_byte),
        }
    }
}

proof fn lemma_first_cut_is(c: Config, s: Seq<u8>, l: int)
    requires
        1 <= l <= s.len(),
        is_boundary(c, s, l),
        forall|l2: int| 1 <= l2 < l ==> !is_boundary(c, s, l2),
    ensures
        first_cut(c, s) == l,
{
    lemma_first_cut(c, s);
    let fc = first_cut(c, s);
    if fc < l {
        assert(is_boundary(c, s, fc));
    } else if fc > l {
        assert(!is_boundary(c, s, l));
    }
}

proof fn lemma_no_cut(c: Config, s: Seq<u8>)
    requires
        forall|l2: int| 1 <= l2 <= s.len() ==> !is_boundary(c, s, l2),
    ensures
        first_cut(c, s) > s.len(),
{
    lemma_first_cut(c, s);
    let fc = first_cut(c, s);
    if fc <= s.len() {
        assert(is_boundary(c, s, fc));
    }
}

/// Finds the length of the first chunk of `buf`, if its end is decided within `buf`.
fn find_boundary(c: &Config, mask: u32, buf: &[u8]) -> (r: Option<usize>)
    requires
        c.valid(),
        mask == config_mask(*c),
    ensures
        match r {
            Some(l) => l == first_cut(*c, buf@) && l <= buf@.len(),
            None => first_cut(*c, buf@) > buf@.len(),
        },
{
    proof {
        lemma_first_cut(*c, buf@);
    }
    let f = match c {
        Config::FixedSize(n) => {
            if *n <= buf.len() {
                assert(is_boundary(*c, buf@, *n as int));
                proof {
                    lemma_first_cut_is(*c, buf@, *n as int);
                }
                return Some(*n);
            } else {
                proof {
                    lemma_no_cut(*c, buf@);
                }
                return None;
            }
        },
        Config::BuzHash(f) => f,
        Config::RollSum(f) => f,
    };
    let ghost s = buf@;
    let n = buf.len();
    let w = f.window_size;
    let lo: usize = if f.min_chunk_size < 1 { 1 } else { f.min_chunk_size };
    let fmax: usize = if f.max_chunk_size < lo { lo } else { f.max_chunk_size };
    let limit: usize = if n < fmax { n } else { fmax };
    let start: usize = if lo < w { w } else { lo };
    assert(forall|l2: int| 1 <= l2 < start && l2 < fmax ==> !is_boundary(*c, s, l2));
    if start <= limit {
        let mut hasher = WindowHasher::new(c, slice_subrange(buf, start - w, start));
        let mut l: usize = start;
        loop
            invariant
                s == buf@,
                start <= l <= limit,
                limit <= n,
                n == s.len(),
                w == f.window_size,
                w >= 1,
                start >= w,
                start >= lo,
                lo >= 1,
                lo >= f.min_chunk_size,
                limit <= fmax,
                fmax >= f.max_chunk_size,
                fmax >= lo,
                fmax == lo || fmax == f.max_chunk_size,
                limit == n || limit == fmax,
                *c is BuzHash ==> *c == Config::BuzHash(*f),
                *c is RollSum ==> *c == Config::RollSum(*f),
                !(*c is FixedSize),
                mask == filter_mask(f.filter_bits.0),
                hasher.wf(*c),
                hasher.window() == s.subrange(l - w, l as int),
                forall|l2: int| 1 <= l2 < l ==> !is_boundary(*c, s, l2),
            ensures
                forall|l2: int| 1 <= l2 <= limit && l2 < fmax ==> !is_boundary(*c, s, l2),
            decreases limit - l,
        {
            let d = hasher.digest(Ghost(*c));
            if d & mask == mask {
                assert(is_boundary(*c, s, l as int));
                proof {
                    lemma_first_cut_is(*c, s, l as int);
                }
                return Some(l);
            }
            assert(l < fmax ==> !is_boundary(*c, s, l as int));
            if l == limit {
                break;
            }
            hasher.roll(Ghost(*c), buf[l - w], buf[l]);
            assert(s.subrange(l - w, l as int).drop_first().push(s[l as int]) =~= s.subrange(
                l + 1 - w,
                l + 1,
            ));
            l = l + 1;
        }
    }
    assert(forall|l2: int| 1 <= l2 <= limit && l2 < fmax ==> !is_boundary(*c, s, l2));
    if fmax <= n {
        assert(is_boundary(*c, s, fmax as int));
        proof {
            lemma_first_cut_is(*c, s, fmax as int);
        }
        Some(fmax)
    } else {
        proof {
            lemma_no_cut(*c, s);
        }
        None
    }
}

/// Whether the chunks handed out so far, followed by the chunks of the
/// buffered bytes and of `rest`, are the chunks of everything fed and `rest`.
pub open spec fn consistent_for(
    c: Config,
    emitted: Seq<Seq<u8>>,
    buffered: Seq<u8>,
    rest: Seq<u8>,
) -> bool {
    chunks_of(c, concat(emitted) + buffered + rest) == emitted + chunks_of(c, buffered + rest)
}

/// Streaming chunker: it is fed a source in pieces of any size and hands out
/// `(offset, chunk)` pairs as soon as each chunk's end is decided.
pub struct Chunker {
    config: Config,
    mask: u32,
    buf: bytes::BytesMut,
    chunk_start: u64,
    fed: Ghost<Seq<u8>>,
    emitted: Ghost<Seq<Seq<u8>>>,
}

impl Chunker {
    pub closed spec fn config(&self) -> Config {
        self.config
    }

    /// Every byte fed so far.
    pub closed spec fn fed(&self) -> Seq<u8> {
        self.fed@
    }

    /// Every chunk handed out so far, in order.
    pub closed spec fn emitted(&self) -> Seq<Seq<u8>> {
        self.emitted@
    }

    /// Bytes fed but not yet handed out.
    pub closed spec fn buffered(&self) -> Seq<u8> {
        buffer_contents(self.buf)
    }

    pub closed spec fn wf(&self) -> bool {
        &&& self.config.valid()
        &&& self.mask == config_mask(self.config)
        &&& self.fed@ == concat(self.emitted@) + buffer_contents(self.buf)
        &&& self.chunk_start == concat(self.emitted@).len()
        &&& self.fed@.len() <= usize::MAX
        &&& forall|rest: Seq<u8>|
            #[trigger] consistent_for(self.config, self.emitted@, buffer_contents(self.buf), rest)
    }

    /// A chunker for `config`; fails with `Error::Config` when the configuration
    /// violates its invariants.
    pub fn new(config: Config) -> (r: Result<Chunker, Error>)
        ensures
            match r {
                Ok(ch) => config.valid() && ch.wf() && ch.config() == config && ch.fed()
                    == Seq::<u8>::empty() && ch.emitted() == Seq::<Seq<u8>>::empty()
                    && ch.buffered() == Seq::<u8>::empty() && ch.fed() == concat(ch.emitted())
                    + ch.buffered(),
                Err(e) => !config.valid() && e is Config,
            },
    {
        if !config.is_valid() {
            return Err(Error::Config("invalid chunker configuration".to_owned()));
        }
        let mask = compute_mask(&config);
        let buf = buffer_with_capacity(REFILL_SIZE);
        let ch = Chunker {
            config,
            mask,
            buf,
            chunk_start: 0,
            fed: Ghost(Seq::empty()),
            emitted: Ghost(Seq::empty()),
        };
        assert(concat(Seq::<Seq<u8>>::empty()) =~= Seq::<u8>::empty());
        assert forall|rest: Seq<u8>|
            #[trigger] consistent_for(config, Seq::empty(), Seq::empty(), rest) by {
            assert(Seq::<u8>::empty() + Seq::<u8>::empty() + rest =~= rest);
            assert(Seq::<u8>::empty() + rest =~= rest);
            assert(Seq::<Seq<u8>>::empty() + chunks_of(config, rest) =~= chunks_of(config, rest));
        }
        Ok(ch)
    }

    /// Appends bytes read from the source.
    pub fn feed(&mut self, data: &[u8])
        requires
            old(self).wf(),
            old(self).fed().len() + data@.len() <= usize::MAX,
        ensures
            final(self).wf(),
            final(self).config() == old(self).config(),
            final(self).fed() == old(self).fed() + data@,
            final(self).emitted() == old(self).emitted(),
            final(self).buffered() == old(self).buffered() + data@,
            final(self).fed() == concat(final(self).emitted()) + final(self).buffered(),
    {
        let ghost e = self.emitted@;
        let ghost b = buffer_contents(self.buf);
        proof {
            assert(b.len() <= self.fed@.len()) by {
                assert(self.fed@ == concat(e) + b);
            }
        }
        buffer_extend(&mut self.buf, data);
        self.fed = Ghost(self.fed@ + data@);
        proof {
            assert(self.fed@ =~= concat(e) + (b + data@));
            assert forall|rest: Seq<u8>|
                #[trigger] consistent_for(self.config, e, b + data@, rest) by {
                assert(consistent_for(self.config, e, b, data@ + rest));
                assert(concat(e) + (b + data@) + rest =~= concat(e) + b + (data@ + rest));
                assert((b + data@) + rest =~= b + (data@ + rest));
            }
        }
    }

    /// Hands out the next chunk if its end is decided by the bytes buffered so
    /// far; `None` when more bytes are needed to decide it.
    pub fn next_chunk(&mut self) -> (r: Option<(u64, Vec<u8>)>)
        requires
            old(self).wf(),
        ensures
            final(self).wf(),
            final(self).config() == old(self).config(),
            final(self).fed() == old(self).fed(),
            final(self).fed() == concat(final(self).emitted()) + final(self).buffered(),
            match r {
                Some((offset, chunk)) => {
                    &&& first_cut(old(self).config(), old(self).buffered())
                        <= old(self).buffered().len()
                    &&& chunk@ == old(self).buffered().take(
                        first_cut(old(self).config(), old(self).buffered()),
                    )
                    &&& offset == concat(old(self).emitted()).len()
                    &&& final(self).emitted() == old(self).emitted().push(chunk@)
                    &&& final(self).buffered() == old(self).buffered().skip(
                        first_cut(old(self).config(), old(self).buffered()),
                    )
                },
                None => {
                    &&& first_cut(old(self).config(), old(self).buffered())
                        > old(self).buffered().len()
                    &&& final(self).emitted() == old(self).emitted()
                    &&& final(self).buffered() == old(self).buffered()
                },
            },
    {
        let found = find_boundary(&self.config, self.mask, buffer_bytes(&self.buf));
        match found {
            None => None,
            Some(l) => {
                let ghost e = self.emitted@;
                let ghost b = buffer_contents(self.buf);
                let chunk = buffer_split_to(&mut self.buf, l);
                let offset = self.chunk_start;
                proof {
                    lemma_concat_push(e, chunk@);
                    assert(b.take(l as int) + b.skip(l as int) =~= b);
                    assert(self.fed@ =~= concat(e.push(chunk@)) + b.skip(l as int));
                }
                self.chunk_start = self.chunk_start + l as u64;
                self.emitted = Ghost(e.push(chunk@));
                proof {
                    assert forall|rest: Seq<u8>|
                        #[trigger] consistent_for(self.config, e.push(chunk@), b.skip(l as int), rest) by {
                        assert(consistent_for(self.config, e, b, rest));
                        lemma_chunks_unfold(self.config, b, rest);
                        assert(concat(e.push(chunk@)) + b.skip(l as int) + rest =~= concat(e) + b
                            + rest);
                        assert(e + (seq![chunk@] + chunks_of(self.config, b.skip(l as int) + rest))
                            =~= e.push(chunk@) + chunks_of(self.config, b.skip(l as int) + rest));
                    }
                }
                Some((offset, chunk))
            },
        }
    }

    /// Ends the stream: hands out every chunk not yet handed out, the last one
    /// possibly shorter than the minimum. Whatever pieces the source came in,
    /// the chunks handed out over the chunker's life are `chunks_of` the bytes
    /// fed, each with its stream offset.
    pub fn finish(self) -> (r: Vec<(u64, Vec<u8>)>)
        requires
            self.wf(),
        ensures
            self.emitted() + r@.map_values(|p: (u64, Vec<u8>)| p.1@) == chunks_of(
                self.config(),
                self.fed(),
            ),
            forall|i: int|
                0 <= i < r@.len() ==> #[trigger] r@[i].0 == chunk_offset(
                    chunks_of(self.config(), self.fed()),
                    self.emitted().len() + i,
                ),
    {
        let ghost e0 = self.emitted@;
        let mut this = self;
        let mut out: Vec<(u64, Vec<u8>)> = Vec::new();
        loop
            invariant
                this.wf(),
                this.config == self.config,
                this.fed@ == self.fed@,
                this.emitted@ == e0 + out@.map_values(|p: (u64, Vec<u8>)| p.1@),
                forall|i: int|
                    0 <= i < out@.len() ==> #[trigger] out@[i].0 == chunk_offset(
                        this.emitted@,
                        e0.len() + i,
                    ),
            ensures
                this.wf(),
                this.config == self.config,
                this.fed@ == self.fed@,
                this.emitted@ == e0 + out@.map_values(|p: (u64, Vec<u8>)| p.1@),
                forall|i: int|
                    0 <= i < out@.len() ==> #[trigger] out@[i].0 == chunk_offset(
                        this.emitted@,
                        e0.len() + i,
                    ),
                first_cut(this.config, buffer_contents(this.buf)) > buffer_contents(this.buf).len(),
            decreases buffer_contents(this.buf).len(),
        {
            let ghost before = this.emitted@;
            let ghost ob = buffer_contents(this.buf);
            match this.next_chunk() {
                Some(p) => {
                    proof {
                        lemma_first_cut(this.config, ob);
                    }
                    let ghost pv = p;
                    out.push(p);
                    proof {
                        assert(this.emitted@ =~= e0 + out@.map_values(|p: (u64, Vec<u8>)| p.1@));
                        assert forall|i: int| 0 <= i < out@.len() implies #[trigger] out@[i].0
                            == chunk_offset(this.emitted@, e0.len() + i) by {
                            assert(this.emitted@.take(e0.len() + i) =~= before.take(e0.len() + i)
                                || i == out@.len() - 1);
                            if i == out@.len() - 1 {
                                assert(this.emitted@.take(e0.len() + i) =~= before);
                            }
                        }
                    }
                },
                None => {
                    break;
                },
            }
        }
        let ghost e = this.emitted@;
        let ghost b = buffer_contents(this.buf);
        proof {
            assert(consistent_for(this.config, e, b, Seq::empty()));
            assert(concat(e) + b + Seq::<u8>::empty() =~= this.fed@);
            assert(b + Seq::<u8>::empty() =~= b);
        }
        let len = buffer_bytes(&this.buf).len();
        if len > 0 {
            let offset = this.chunk_start;
            let tail = buffer_split_to(&mut this.buf, len);
            proof {
                lemma_first_cut(this.config, b);
                lemma_chunks_single(this.config, b);
                assert(tail@ =~= b);
            }
            out.push((offset, tail));
            proof {
                let all = e.push(b);
                assert(all == chunks_of(self.config, self.fed@));
                assert(all =~= e0 + out@.map_values(|p: (u64, Vec<u8>)| p.1@));
                assert forall|i: int| 0 <= i < out@.len() implies #[trigger] out@[i].0
                    == chunk_offset(all, e0.len() + i) by {
                    if i == out@.len() - 1 {
                        assert(all.take(e0.len() + i) =~= e);
                    } else {
                        assert(all.take(e0.len() + i) =~= e.take(e0.len() + i));
                    }
                }
            }
        } else {
            proof {
                assert(b =~= Seq::<u8>::empty());
                assert(chunks_of(this.config, Seq::<u8>::empty()) =~= Seq::<Seq<u8>>::empty());
                assert(e + Seq::<Seq<u8>>::empty() =~= e);
            }
        }
        out
    }
}

/// The chunks of a whole in-memory source, each with its offset; fails with
/// `Error::Config` when the configuration violates its invariants.
pub fn chunk_all(config: Config, data: &[u8]) -> (r: Result<Vec<(u64, Vec<u8>)>, Error>)
    ensures
        match r {
            Ok(cs) => {
                &&& config.valid()
                &&& cs@.map_values(|p: (u64, Vec<u8>)| p.1@) == chunks_of(config, data@)
                &&& forall|i: int|
                    0 <= i < cs@.len() ==> #[trigger] cs@[i].0 == chunk_offset(
                        chunks_of(config, data@),
                        i,
                    )
            },
            Err(e) => !config.valid() && e is Config,
        },
{
    let mut ch = match Chunker::new(config) {
        Ok(ch) => ch,
        Err(e) => {
            return Err(e);
        },
    };
    assert(data@.len() == data.len());
    ch.feed(data);
    proof {
        assert(Seq::<u8>::empty() + data@ =~= data@);
        assert(Seq::<Seq<u8>>::empty() + ch.emitted() =~= ch.emitted());
    }
    let out = ch.finish();
    proof {
        assert(Seq::<Seq<u8>>::empty() + out@.map_values(|p: (u64, Vec<u8>)| p.1@)
            =~= out@.map_values(|p: (u64, Vec<u8>)| p.1@));
    }
    Ok(out)
}

} // verus!
