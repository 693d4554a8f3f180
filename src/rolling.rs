//! Rolling hashes over a sliding byte window.
//!
//! Each engine is described by a spec function of the window contents
//! (`rollsum_digest`, `buzhash_digest`); the executable engines keep a ghost
//! copy of the window and prove that their O(1) update yields exactly the
//! digest of the shifted window.
use vstd::arithmetic::div_mod::{
    lemma_add_mod_noop, lemma_mod_add_multiples_vanish, lemma_sub_mod_noop,
};
use vstd::prelude::*;

verus! {

pub open spec fn word_mod() -> int {
    65536
}

/// Sum of the window's bytes.
pub open spec fn rollsum_s1(w: Seq<u8>) -> int
    decreases w.len(),
{
    if w.len() == 0 {
        0
    } else {
        w[0] as int + rollsum_s1(w.drop_first())
    }
}

/// Sum of `(n - i) * w[i]` over the window of length `n`.
pub open spec fn rollsum_s2(w: Seq<u8>) -> int
    decreases w.len(),
{
    if w.len() == 0 {
        0
    } else {
        w.len() * (w[0] as int) + rollsum_s2(w.drop_first())
    }
}

/// RollSum digest of a window: `(s2 << 16) | s1`, each accumulator taken modulo 2^16.
pub open spec fn rollsum_digest(w: Seq<u8>) -> u32 {
    ((rollsum_s2(w) % word_mod()) * word_mod() + rollsum_s1(w) % word_mod()) as u32
}

pub proof fn lemma_rollsum_push(a: Seq<u8>, x: u8)
    ensures
        rollsum_s1(a.push(x)) == rollsum_s1(a) + x,
        rollsum_s2(a.push(x)) == rollsum_s2(a) + rollsum_s1(a) + x,
    decreases a.len(),
{
    let ax = a.push(x);
    if a.len() == 0 {
        assert(ax.drop_first() =~= Seq::<u8>::empty());
        assert(ax[0] == x);
        assert(rollsum_s1(ax) == x + rollsum_s1(ax.drop_first()));
        assert(rollsum_s2(ax) == 1 * (x as int) + rollsum_s2(ax.drop_first()));
    } else {
        assert(ax.drop_first() =~= a.drop_first().push(x));
        assert(ax[0] == a[0]);
        lemma_rollsum_push(a.drop_first(), x);
        let n = a.len() as int;
        let h = a[0] as int;
        assert((n + 1) * h == n * h + h) by (nonlinear_arith);
        assert(rollsum_s1(ax) == h + rollsum_s1(ax.drop_first()));
        assert(rollsum_s2(ax) == (n + 1) * h + rollsum_s2(ax.drop_first()));
        assert(rollsum_s1(a) == h + rollsum_s1(a.drop_first()));
        assert(rollsum_s2(a) == n * h + rollsum_s2(a.drop_first()));
    }
}

/// Accumulator update modulo 2^16, as `RollSum::roll` computes it.
proof fn lemma_rollsum_roll_mod(s1: int, s2: int, big1: int, big2: int, n: int, o: int, x: int, w: int)
    requires
        s1 == big1 % word_mod(),
        s2 == big2 % word_mod(),
        0 <= o < 256,
        0 <= x < 256,
        0 <= w < word_mod(),
        w == (n * o) % word_mod(),
    ensures
        (s1 + x + word_mod() - o) % word_mod() == (big1 - o + x) % word_mod(),
        (s2 + (s1 + x + word_mod() - o) % word_mod() + word_mod() - w) % word_mod() == (big2 - n * o
            + (big1 - o + x)) % word_mod(),
{
    let m = word_mod();
    let t1 = big1 - o + x;
    assert((s1 + x + m - o) % m == t1 % m) by {
        lemma_add_mod_noop(big1, x - o + m, m);
        lemma_mod_add_multiples_vanish(x - o, m);
        lemma_add_mod_noop(big1, x - o, m);
        vstd::arithmetic::div_mod::lemma_mod_twice(big1, m);
        lemma_add_mod_noop(s1, x - o + m, m);
        lemma_mod_add_multiples_vanish(t1, m);
        assert(big1 + (x - o + m) == m + t1);
    }
    let u = t1 % m;
    let t2 = big2 - n * o + t1;
    assert((s2 + u + m - w) % m == t2 % m) by {
        lemma_mod_add_multiples_vanish(s2 + u - w, m);
        assert(s2 + u + m - w == m + (s2 + u - w));
        lemma_sub_mod_noop(s2 + u, n * o, m);
        vstd::arithmetic::div_mod::lemma_mod_twice(n * o, m);
        lemma_add_mod_noop(big2, t1, m);
        vstd::arithmetic::div_mod::lemma_mod_twice(big2, m);
        vstd::arithmetic::div_mod::lemma_mod_twice(t1, m);
        lemma_add_mod_noop(s2, u, m);
        lemma_sub_mod_noop(big2 + t1, n * o, m);
        assert(t2 == (big2 + t1) - n * o);
    }
}

/// The 32-bit value that BuzHash assigns to a byte. The table is this
/// library's own, generated by a fixed mixing formula; it is not the table
/// that archives of other tools were chunked with, so BuzHash boundaries (and
/// hence chunks) differ from theirs. RollSum is unaffected.
pub open spec fn buzhash_entry(b: u8) -> u32 {
    let x = ((b as u64 + 1) * 0x9E37_79B1u64) as u32;
    let y = x ^ (x >> 15u32);
    let z = ((y as u64) * 0x85EB_CA77u64) as u32;
    z ^ (z >> 13u32)
}

/// Rotation to the left by `s` bits, for `s < 32`.
pub open spec fn rotl(x: u32, s: u32) -> u32 {
    if s == 0 {
        x
    } else {
        (x << s) | (x >> ((32 - s) as u32))
    }
}

/// BuzHash digest of a window: starting from 0, each byte rotates the state by
/// one and mixes in its table entry.
pub open spec fn buzhash_digest(w: Seq<u8>) -> u32
    decreases w.len(),
{
    if w.len() == 0 {
        0
    } else {
        rotl(buzhash_digest(w.drop_last()), 1) ^ buzhash_entry(w.last())
    }
}

proof fn lemma_rotl_xor(a: u32, b: u32, s: u32)
    requires
        s < 32,
    ensures
        rotl(a ^ b, s) == rotl(a, s) ^ rotl(b, s),
{
    if s != 0 {
        assert(((a ^ b) << s) | ((a ^ b) >> ((32 - s) as u32)) == ((a << s) | (a >> ((32 - s) as u32)))
            ^ ((b << s) | (b >> ((32 - s) as u32)))) by (bit_vector)
            requires
                0 < s < 32,
        ;
    }
}

proof fn lemma_rotl_succ(a: u32, s: u32)
    requires
        s < 32,
    ensures
        rotl(rotl(a, s), 1) == rotl(a, ((s + 1) % 32) as u32),
{
    if s == 0 {
    } else if s == 31 {
        assert((((a << 31u32) | (a >> 1u32)) << 1u32) | (((a << 31u32) | (a >> 1u32)) >> 31u32) == a)
            by (bit_vector);
    } else {
        let t = (s + 1) as u32;
        assert((((a << s) | (a >> ((32 - s) as u32))) << 1u32) | (((a << s) | (a >> ((32 - s) as u32)))
            >> 31u32) == (a << t) | (a >> ((32 - t) as u32))) by (bit_vector)
            requires
                0 < s < 31,
                t == s + 1,
        ;
    }
}

proof fn lemma_xor_facts(a: u32, b: u32, c: u32)
    ensures
        (a ^ b) ^ c == a ^ (b ^ c),
        a ^ b == b ^ a,
        a ^ 0 == a,
        (a ^ a) ^ b == b,
{
    assert((a ^ b) ^ c == a ^ (b ^ c)) by (bit_vector);
    assert(a ^ b == b ^ a) by (bit_vector);
    assert(a ^ 0 == a) by (bit_vector);
    assert((a ^ a) ^ b == b) by (bit_vector);
}

/// The first byte of a window contributes its table entry rotated by the
/// number of bytes that follow it.
proof fn lemma_buzhash_split_first(x: u8, v: Seq<u8>)
    ensures
        buzhash_digest(seq![x] + v) == rotl(buzhash_entry(x), (v.len() % 32) as u32)
            ^ buzhash_digest(v),
    decreases v.len(),
{
    let w = seq![x] + v;
    let e = buzhash_entry(x);
    if v.len() == 0 {
        assert(w.drop_last() =~= Seq::<u8>::empty());
        assert(w.last() == x);
        assert(w.drop_last() =~= v);
        assert(buzhash_digest(v) == 0);
        assert(buzhash_digest(w) == rotl(0, 1) ^ e);
        assert(rotl(0, 1) == (0u32 << 1u32) | (0u32 >> 31u32));
        assert((0u32 << 1u32) | (0u32 >> 31u32) == 0u32) by (bit_vector);
        assert(0u32 ^ e == e ^ 0u32) by (bit_vector);
        assert(e ^ 0u32 == e) by (bit_vector);
        assert(rotl(e, 0) == e);
    } else {
        let vp = v.drop_last();
        let y = v.last();
        assert(w.drop_last() =~= seq![x] + vp);
        assert(w.last() == y);
        lemma_buzhash_split_first(x, vp);
        let k = (vp.len() % 32) as u32;
        let r = rotl(e, k);
        let d = buzhash_digest(vp);
        assert(buzhash_digest(seq![x] + vp) == r ^ d);
        assert(buzhash_digest(w) == rotl(r ^ d, 1) ^ buzhash_entry(y));
        assert(buzhash_digest(v) == rotl(d, 1) ^ buzhash_entry(y));
        lemma_rotl_xor(r, d, 1);
        lemma_rotl_succ(e, k);
        assert((vp.len() % 32 + 1) % 32 == v.len() % 32) by {
            assert(v.len() == vp.len() + 1);
        }
        assert(((k + 1) % 32) as u32 == (v.len() % 32) as u32);
        lemma_xor_facts(rotl(r, 1), rotl(d, 1), buzhash_entry(y));
    }
}

/// Sliding the window by one byte: the update that `BuzHash::roll` performs.
pub proof fn lemma_buzhash_roll(w: Seq<u8>, x: u8)
    requires
        w.len() > 0,
    ensures
        buzhash_digest(w.drop_first().push(x)) == rotl(buzhash_digest(w), 1) ^ rotl(
            buzhash_entry(w[0]),
            (w.len() % 32) as u32,
        ) ^ buzhash_entry(x),
{
    let v = w.drop_first();
    assert(w =~= seq![w[0]] + v);
    lemma_buzhash_split_first(w[0], v);
    let e = buzhash_entry(w[0]);
    let k = (v.len() % 32) as u32;
    let r = rotl(e, k);
    let d = buzhash_digest(v);
    assert(v.push(x).drop_last() =~= v);
    lemma_rotl_xor(r, d, 1);
    lemma_rotl_succ(e, k);
    assert((v.len() % 32 + 1) % 32 == w.len() % 32);
    let rr = rotl(r, 1);
    let rd = rotl(d, 1);
    // buzhash_digest(w) == r ^ d, so rotl(buzhash_digest(w), 1) ^ rr == rd
    lemma_xor_facts(rr, rd, rr);
    lemma_xor_facts(rr, rr, rd);
    lemma_xor_facts(rd, rr, rr);
    assert((rr ^ rd) ^ rr == rd) by (bit_vector);
    lemma_xor_facts((rr ^ rd) ^ rr, buzhash_entry(x), 0);
}

/// Table entry of a byte (see `buzhash_entry`: not the table of other tools).
pub fn buzhash_table(b: u8) -> (r: u32)
    ensures
        r == buzhash_entry(b),
{
    let x: u32 = ((b as u64 + 1) * 0x9E37_79B1u64) as u32;
    let y: u32 = x ^ (x >> 15u32);
    let z: u32 = ((y as u64) * 0x85EB_CA77u64) as u32;
    z ^ (z >> 13u32)
}

fn rotate_left(x: u32, s: u32) -> (r: u32)
    requires
        s < 32,
    ensures
        r == rotl(x, s),
{
    if s == 0 {
        x
    } else {
        (x << s) | (x >> (32 - s))
    }
}

/// Adler-style rolling checksum with two 16-bit accumulators.
pub struct RollSum {
    s1: u32,
    s2: u32,
    window_size: usize,
    window: Ghost<Seq<u8>>,
}

impl RollSum {
    pub closed spec fn window(&self) -> Seq<u8> {
        self.window@
    }

    pub closed spec fn window_size_spec(&self) -> nat {
        self.window_size as nat
    }

    pub closed spec fn wf(&self) -> bool {
        &&& self.window@.len() == self.window_size
        &&& self.s1 as int == rollsum_s1(self.window@) % word_mod()
        &&& self.s2 as int == rollsum_s2(self.window@) % word_mod()
    }

    /// Seeds the checksum from a full window.
    pub fn new(window: &[u8]) -> (r: Self)
        ensures
            r.wf(),
            r.window() == window@,
            r.window_size_spec() == window@.len(),
    {
        let mut s1: u32 = 0;
        let mut s2: u32 = 0;
        let mut i: usize = 0;
        while i < window.len()
            invariant
                i <= window@.len(),
                s1 as int == rollsum_s1(window@.take(i as int)) % word_mod(),
                s2 as int == rollsum_s2(window@.take(i as int)) % word_mod(),
            decreases window@.len() - i,
        {
            let b = window[i];
            proof {
                let a = window@.take(i as int);
                assert(window@.take(i + 1) =~= a.push(b));
                lemma_rollsum_push(a, b);
                let m = word_mod();
                lemma_add_mod_noop(rollsum_s1(a), b as int, m);
                assert((b as int) % m == b as int);
                assert((s1 as int) % m == s1 as int);
                let n1 = rollsum_s1(a) + b;
                lemma_add_mod_noop(rollsum_s2(a), n1, m);
                assert(((s1 + b) as int % m) % m == (s1 + b) as int % m) by {
                    vstd::arithmetic::div_mod::lemma_mod_twice((s1 + b) as int, m);
                }
                assert((s2 as int) % m == s2 as int);
            }
            s1 = (s1 + b as u32) % 65536;
            s2 = (s2 + s1) % 65536;
            i = i + 1;
        }
        assert(window@.take(window@.len() as int) =~= window@);
        RollSum { s1, s2, window_size: window.len(), window: Ghost(window@) }
    }

    /// Current digest.
    pub fn digest(&self) -> (r: u32)
        requires
            self.wf(),
        ensures
            r == rollsum_digest(self.window()),
    {
        self.s2 * 65536 + self.s1
    }

    /// Slides the window: `out_byte` leaves on the left, `in_byte` enters on the right.
    pub fn roll(&mut self, out_byte: u8, in_byte: u8)
        requires
            old(self).wf(),
            old(self).window().len() > 0,
            out_byte == old(self).window()[0],
        ensures
            final(self).wf(),
            final(self).window() == old(self).window().drop_first().push(in_byte),
            final(self).window_size_spec() == old(self).window_size_spec(),
    {
        let ghost w = self.window@;
        let ghost v = w.drop_first();
        let ghost nw = v.push(in_byte);
        let ghost m = word_mod();
        proof {
            assert(w =~= seq![w[0]] + v);
            lemma_rollsum_push(v, in_byte);
            assert(rollsum_s1(w) == w[0] + rollsum_s1(v));
            assert(rollsum_s2(w) == w.len() * (w[0] as int) + rollsum_s2(v));
            vstd::arithmetic::div_mod::lemma_mod_bound(rollsum_s1(w), m);
            vstd::arithmetic::div_mod::lemma_mod_bound(rollsum_s2(w), m);
        }
        let n_mod: u64 = (self.window_size % 65536) as u64;
        assert(n_mod < 65536);
        assert(self.s1 < 65536);
        assert(n_mod * (out_byte as u64) < 65536 * 256) by (nonlinear_arith)
            requires
                n_mod < 65536,
                out_byte < 256,
        ;
        let weighted: u32 = ((n_mod * out_byte as u64) % 65536) as u32;
        let s1_new: u32 = (self.s1 + in_byte as u32 + 65536 - out_byte as u32) % 65536;
        assert(weighted < 65536);
        assert(self.s2 < 65536);
        assert(s1_new < 65536);
        let s2_new: u32 = (self.s2 + s1_new + 65536 - weighted) % 65536;
        proof {
            let n = w.len() as int;
            assert(weighted as int == (n * out_byte as int) % m) by {
                vstd::arithmetic::div_mod::lemma_mul_mod_noop_left(n, out_byte as int, m);
            }
            lemma_rollsum_roll_mod(
                self.s1 as int,
                self.s2 as int,
                rollsum_s1(w),
                rollsum_s2(w),
                n,
                out_byte as int,
                in_byte as int,
                weighted as int,
            );
        }
        self.s1 = s1_new;
        self.s2 = s2_new;
        self.window = Ghost(nw);
    }
}

/// XOR-rotate rolling hash over a table of 32-bit values.
pub struct BuzHash {
    h: u32,
    window_size: usize,
    window: Ghost<Seq<u8>>,
}

impl BuzHash {
    pub closed spec fn window(&self) -> Seq<u8> {
        self.window@
    }

    pub closed spec fn window_size_spec(&self) -> nat {
        self.window_size as nat
    }

    pub closed spec fn wf(&self) -> bool {
        &&& self.window@.len() == self.window_size
        &&& self.h == buzhash_digest(self.window@)
    }

    /// Seeds the hash from a full window.
    pub fn new(window: &[u8]) -> (r: Self)
        ensures
            r.wf(),
            r.window() == window@,
            r.window_size_spec() == window@.len(),
    {
        let mut h: u32 = 0;
        let mut i: usize = 0;
        while i < window.len()
            invariant
                i <= window@.len(),
                h == buzhash_digest(window@.take(i as int)),
            decreases window@.len() - i,
        {
            proof {
                let a = window@.take(i + 1);
                assert(a.drop_last() =~= window@.take(i as int));
            }
            h = rotate_left(h, 1) ^ buzhash_table(window[i]);
            i = i + 1;
        }
        assert(window@.take(window@.len() as int) =~= window@);
        BuzHash { h, window_size: window.len(), window: Ghost(window@) }
    }

    /// Current digest.
    pub fn digest(&self) -> (r: u32)
        requires
            self.wf(),
        ensures
            r == buzhash_digest(self.window()),
    {
        self.h
    }

    /// Slides the window: `out_byte` leaves on the left, `in_byte` enters on the right.
    pub fn roll(&mut self, out_byte: u8, in_byte: u8)
        requires
            old(self).wf(),
            old(self).window().len() > 0,
            out_byte == old(self).window()[0],
        ensures
            final(self).wf(),
            final(self).window() == old(self).window().drop_first().push(in_byte),
            final(self).window_size_spec() == old(self).window_size_spec(),
    {
        proof {
            lemma_buzhash_roll(self.window@, in_byte);
        }
        let shift: u32 = (self.window_size % 32) as u32;
        self.h = rotate_left(self.h, 1) ^ rotate_left(buzhash_table(out_byte), shift)
            ^ buzhash_table(in_byte);
        self.window = Ghost(self.window@.drop_first().push(in_byte));
    }
}

} // verus!
