//! Comparing the chunks of two files: per-file chunk statistics, the chunk
//! sets they share or not, and the text that reports them.
use crate::chunker::Config;
use crate::compress::bytes_equal;
use crate::dictionary::ChunkCompression;
use crate::index::HashIndex;
use vstd::prelude::*;
use vstd::string::StringExecFns;

verus! {

/// Decimal digit `d` as a character.
pub open spec fn digit_char(d: int) -> char {
    if d == 0 {
        '0'
    } else if d == 1 {
        '1'
    } else if d == 2 {
        '2'
    } else if d == 3 {
        '3'
    } else if d == 4 {
        '4'
    } else if d == 5 {
        '5'
    } else if d == 6 {
        '6'
    } else if d == 7 {
        '7'
    } else if d == 8 {
        '8'
    } else {
        '9'
    }
}

/// Decimal text of `n`.
pub open spec fn decimal(n: nat) -> Seq<char>
    decreases n,
{
    if n < 10 {
        seq![digit_char(n as int)]
    } else {
        decimal(n / 10).push(digit_char((n % 10) as int))
    }
}

fn digit_str(d: u64) -> (r: &'static str)
    requires
        d < 10,
    ensures
        r@ == seq![digit_char(d as int)],
{
    proof {
        reveal_strlit("0");
        reveal_strlit("1");
        reveal_strlit("2");
        reveal_strlit("3");
        reveal_strlit("4");
        reveal_strlit("5");
        reveal_strlit("6");
        reveal_strlit("7");
        reveal_strlit("8");
        reveal_strlit("9");
    }
    let r = if d == 0 {
        "0"
    } else if d == 1 {
        "1"
    } else if d == 2 {
        "2"
    } else if d == 3 {
        "3"
    } else if d == 4 {
        "4"
    } else if d == 5 {
        "5"
    } else if d == 6 {
        "6"
    } else if d == 7 {
        "7"
    } else if d == 8 {
        "8"
    } else {
        "9"
    };
    assert(r@ =~= seq![digit_char(d as int)]);
    r
}

/// Appends the decimal text of `n`.
pub fn push_decimal(s: &mut String, n: u64)
    ensures
        final(s)@ == old(s)@ + decimal(n as nat),
    decreases n,
{
    if n >= 10 {
        push_decimal(s, n / 10);
    }
    s.append(digit_str(n % 10));
    assert(final(s)@ =~= old(s)@ + decimal(n as nat));
}

/// What to compare and how to chunk it.
#[derive(Clone, Debug)]
pub struct Options {
    pub input_a: String,
    pub input_b: String,
    pub chunker_config: Config,
    pub compression: Option<ChunkCompression>,
    pub num_chunk_buffers: usize,
}

/// Usage of one chunk within a file.
#[derive(Clone, Debug)]
pub struct ChunkUsage {
    pub source_size: usize,
    /// Size after compression, when it was compressed.
    pub compressed_size: Option<usize>,
    /// Stream offsets at which the chunk occurs.
    pub occurrences: Vec<u64>,
}

/// Chunk usages keyed by hash sum.
pub struct ChunkTable {
    pub hashes: Vec<Vec<u8>>,
    pub usages: Vec<ChunkUsage>,
    /// Positions of the hash sums, for lookup.
    pub index: HashIndex,
}

/// `a + b`, or `u64::MAX` when that does not fit.
pub open spec fn sat_add(a: u64, b: int) -> u64 {
    if a + b > u64::MAX {
        u64::MAX
    } else {
        (a + b) as u64
    }
}

fn saturating_add(a: u64, b: u64) -> (r: u64)
    ensures
        r == sat_add(a, b as int),
{
    if b > u64::MAX - a {
        u64::MAX
    } else {
        a + b
    }
}

fn saturating_mul(a: u64, b: u64) -> (r: u64)
    ensures
        r == (if a * b > u64::MAX {
            u64::MAX
        } else {
            (a * b) as u64
        }),
{
    if a == 0 {
        0
    } else if b > u64::MAX / a {
        proof {
            assert(a * b > u64::MAX) by (nonlinear_arith)
                requires
                    a > 0,
                    b > u64::MAX / a,
            ;
        }
        u64::MAX
    } else {
        proof {
            assert(a * b <= u64::MAX) by (nonlinear_arith)
                requires
                    a > 0,
                    b <= u64::MAX / a,
            ;
        }
        a * b
    }
}

impl ChunkTable {
    pub open spec fn wf(&self) -> bool {
        &&& self.hashes@.len() == self.usages@.len()
        &&& self.hashes@.len() <= u32::MAX
        &&& self.index.wf()
        &&& self.index.keys().len() == self.hashes@.len()
        &&& forall|i: int|
            0 <= i < self.hashes@.len() ==> #[trigger] self.index.keys()[i] == self.hashes@[i]@
        &&& forall|i: int, j: int|
            0 <= i < j < self.hashes@.len() ==> (#[trigger] self.hashes@[i])@ != (
            #[trigger] self.hashes@[j])@
    }

    /// Whether `h` is a key.
    pub open spec fn has(&self, h: Seq<u8>) -> bool {
        exists|i: int| 0 <= i < self.hashes@.len() && (#[trigger] self.hashes@[i])@ == h
    }

    /// An empty table.
    pub fn new() -> (r: ChunkTable)
        ensures
            r.wf(),
            r.hashes@.len() == 0,
    {
        ChunkTable { hashes: Vec::new(), usages: Vec::new(), index: HashIndex::new() }
    }

    /// Position of key `h`.
    pub fn find(&self, h: &[u8]) -> (r: Option<usize>)
        requires
            self.wf(),
        ensures
            match r {
                Some(i) => i < self.hashes@.len() && self.hashes@[i as int]@ == h@,
                None => !self.has(h@),
            },
    {
        let cands = self.index.candidates(h);
        let mut t: usize = 0;
        while t < cands.len()
            invariant
                self.wf(),
                t <= cands@.len(),
                forall|x: int| 0 <= x < cands@.len() ==> #[trigger] cands@[x] < self.hashes@.len(),
                forall|j: int|
                    0 <= j < self.hashes@.len() && self.index.keys()[j] == h@ ==> cands@.contains(
                        j as u32,
                    ),
                forall|q: int| 0 <= q < t ==> self.hashes@[cands@[q] as int]@ != h@,
            decreases cands@.len() - t,
        {
            let c = cands[t] as usize;
            assert(c < self.hashes@.len());
            if bytes_equal(self.hashes[c].as_slice(), h) {
                return Some(c);
            }
            t = t + 1;
        }
        proof {
            assert forall|i: int| 0 <= i < self.hashes@.len() implies (
            #[trigger] self.hashes@[i])@ != h@ by {
                if self.hashes@[i]@ == h@ {
                    assert(self.index.keys()[i] == h@);
                    assert(cands@.contains(i as u32));
                    let q = choose|q: int| 0 <= q < cands@.len() && cands@[q] == i as u32;
                    assert(cands@[q] as int == i);
                }
            }
        }
        None
    }
}

/// Chunk statistics of one file.
pub struct ChunkerResult {
    pub descriptors: ChunkTable,
    pub total_size: u64,
    pub total_compressed_size: u64,
    pub total_chunks: usize,
}

impl ChunkerResult {
    /// Statistics of a file with no chunks yet.
    pub fn new() -> (r: ChunkerResult)
        ensures
            r.descriptors.wf(),
            r.descriptors.hashes@.len() == 0,
            r.total_size == 0,
            r.total_compressed_size == 0,
            r.total_chunks == 0,
    {
        ChunkerResult {
            descriptors: ChunkTable::new(),
            total_size: 0,
            total_compressed_size: 0,
            total_chunks: 0,
        }
    }

    /// Records the next chunk of the file: at `offset`, `len` bytes with hash
    /// sum `hash`, and its compressed size when it was compressed (only the
    /// first occurrence of a chunk is). Totals saturate at `u64::MAX`.
    pub fn add_chunk(&mut self, offset: u64, hash: &[u8], len: usize, compressed_size: Option<
        usize,
    >)
        requires
            old(self).descriptors.wf(),
            old(self).total_chunks < usize::MAX,
            old(self).descriptors.hashes@.len() < u32::MAX,
        ensures
            final(self).descriptors.wf(),
            final(self).total_chunks == old(self).total_chunks + 1,
            final(self).total_size == sat_add(old(self).total_size, len as int),
            final(self).descriptors.has(hash@),
            match old(self).descriptors.find_spec(hash@) {
                Some(i) => {
                    let old_usage = old(self).descriptors.usages@[i];
                    let cs = match compressed_size {
                        Some(c) => Some(c),
                        None => old_usage.compressed_size,
                    };
                    &&& final(self).descriptors.hashes@ == old(self).descriptors.hashes@
                    &&& final(self).descriptors.usages@ == old(self).descriptors.usages@.update(
                        i,
                        final(self).descriptors.usages@[i],
                    )
                    &&& final(self).descriptors.usages@[i].source_size == old_usage.source_size
                    &&& final(self).descriptors.usages@[i].compressed_size == cs
                    &&& final(self).descriptors.usages@[i].occurrences@
                        == old_usage.occurrences@.push(offset)
                    &&& final(self).total_compressed_size == sat_add(
                        old(self).total_compressed_size,
                        match cs {
                            Some(c) => c as int,
                            None => 0,
                        },
                    )
                },
                None => {
                    &&& final(self).descriptors.hashes@.len() == old(self).descriptors.hashes@.len()
                        + 1
                    &&& final(self).descriptors.hashes@.drop_last() == old(self).descriptors.hashes@
                    &&& final(self).descriptors.hashes@.last()@ == hash@
                    &&& final(self).descriptors.usages@.drop_last() == old(self).descriptors.usages@
                    &&& final(self).descriptors.usages@.last().source_size == len
                    &&& final(self).descriptors.usages@.last().compressed_size == compressed_size
                    &&& final(self).descriptors.usages@.last().occurrences@ == seq![offset]
                    &&& final(self).total_compressed_size == sat_add(
                        old(self).total_compressed_size,
                        match compressed_size {
                            Some(c) => c as int,
                            None => 0,
                        },
                    )
                },
            },
    {
        self.total_chunks = self.total_chunks + 1;
        self.total_size = saturating_add(self.total_size, len as u64);
        match self.descriptors.find(hash) {
            Some(i) => {
                let ghost old_usages = self.descriptors.usages@;
                let mut u = self.descriptors.usages[i].clone_usage();
                u.occurrences.push(offset);
                match compressed_size {
                    Some(c) => {
                        u.compressed_size = Some(c);
                    },
                    None => {},
                }
                let add = match u.compressed_size {
                    Some(c) => c as u64,
                    None => 0,
                };
                self.total_compressed_size = saturating_add(self.total_compressed_size, add);
                self.descriptors.usages.set(i, u);
                proof {
                    assert(self.descriptors.hashes@[i as int]@ == hash@);
                    lemma_find_spec_is(old(self).descriptors, hash@, i as int);
                }
            },
            None => {
                let mut occurrences: Vec<u64> = Vec::new();
                occurrences.push(offset);
                let add = match compressed_size {
                    Some(c) => c as u64,
                    None => 0,
                };
                self.total_compressed_size = saturating_add(self.total_compressed_size, add);
                let ghost old_hashes = self.descriptors.hashes@;
                self.descriptors.hashes.push(crate::compress::copy_bytes(hash));
                self.descriptors.index.insert(hash);
                self.descriptors.usages.push(
                    ChunkUsage { source_size: len, compressed_size, occurrences },
                );
                proof {
                    let n = self.descriptors.hashes@.len() - 1;
                    assert(self.descriptors.hashes@[n]@ == hash@);
                    assert forall|i: int| 0 <= i < self.descriptors.hashes@.len() implies #[trigger] self.descriptors.index.keys()[i]
                        == self.descriptors.hashes@[i]@ by {
                        if i < n {
                            assert(old_hashes[i] == self.descriptors.hashes@[i]);
                            assert(old(self).descriptors.index.keys()[i] == old_hashes[i]@);
                        }
                    }
                    assert forall|a: int, b: int|
                        0 <= a < b < self.descriptors.hashes@.len() implies (
                        #[trigger] self.descriptors.hashes@[a])@ != (
                        #[trigger] self.descriptors.hashes@[b])@ by {
                        if b == n {
                            assert(old_hashes[a] == self.descriptors.hashes@[a]);
                        } else {
                            assert(old_hashes[a] == self.descriptors.hashes@[a]);
                            assert(old_hashes[b] == self.descriptors.hashes@[b]);
                        }
                    }
                    lemma_find_spec_none(old(self).descriptors, hash@);
                }
            },
        }
    }
}

impl ChunkUsage {
    /// A copy of the usage.
    pub fn clone_usage(&self) -> (r: ChunkUsage)
        ensures
            r.source_size == self.source_size,
            r.compressed_size == self.compressed_size,
            r.occurrences@ == self.occurrences@,
    {
        let mut occ: Vec<u64> = Vec::with_capacity(self.occurrences.len());
        let mut i: usize = 0;
        while i < self.occurrences.len()
            invariant
                i <= self.occurrences@.len(),
                occ@ == self.occurrences@.take(i as int),
            decreases self.occurrences@.len() - i,
        {
            occ.push(self.occurrences[i]);
            assert(self.occurrences@.take(i + 1) =~= self.occurrences@.take(i as int).push(
                self.occurrences@[i as int],
            ));
            i = i + 1;
        }
        assert(self.occurrences@.take(self.occurrences@.len() as int) =~= self.occurrences@);
        ChunkUsage {
            source_size: self.source_size,
            compressed_size: self.compressed_size,
            occurrences: occ,
        }
    }
}

impl ChunkTable {
    /// Position of key `h`, if any.
    pub open spec fn find_spec(&self, h: Seq<u8>) -> Option<int> {
        if self.has(h) {
            Some(choose|i: int| 0 <= i < self.hashes@.len() && (#[trigger] self.hashes@[i])@ == h)
        } else {
            None
        }
    }
}

proof fn lemma_find_spec_is(t: ChunkTable, h: Seq<u8>, i: int)
    requires
        t.wf(),
        0 <= i < t.hashes@.len(),
        t.hashes@[i]@ == h,
    ensures
        t.find_spec(h) == Some(i),
{
    assert(t.has(h));
    let k = choose|k: int| 0 <= k < t.hashes@.len() && (#[trigger] t.hashes@[k])@ == h;
    if k != i {
        if k < i {
            assert(t.hashes@[k]@ != t.hashes@[i]@);
        } else {
            assert(t.hashes@[i]@ != t.hashes@[k]@);
        }
    }
}

proof fn lemma_find_spec_none(t: ChunkTable, h: Seq<u8>)
    requires
        !t.has(h),
    ensures
        t.find_spec(h) is None,
{
}


/// `a * b`, or `u64::MAX` when that does not fit.
pub open spec fn sat_mul(a: u64, b: u64) -> u64 {
    if a * b > u64::MAX {
        u64::MAX
    } else {
        (a * b) as u64
    }
}

/// Usage recorded for key `h`.
pub open spec fn usage_of(t: ChunkTable, h: Seq<u8>) -> ChunkUsage {
    t.usages@[t.find_spec(h).unwrap()]
}

/// Bytes that the occurrences of the first `n` selected chunks take in the
/// file, saturating at `u64::MAX`.
pub open spec fn selection_size(sel: Seq<Vec<u8>>, t: ChunkTable, n: int) -> u64
    decreases n,
{
    if n <= 0 {
        0
    } else {
        let u = usage_of(t, sel[n - 1]@);
        sat_add(
            selection_size(sel, t, n - 1),
            sat_mul(u.source_size as u64, u.occurrences@.len() as u64) as int,
        )
    }
}

/// As `selection_size`, counting each chunk at its compressed size when it has one.
pub open spec fn selection_compressed_size(sel: Seq<Vec<u8>>, t: ChunkTable, n: int) -> u64
    decreases n,
{
    if n <= 0 {
        0
    } else {
        let u = usage_of(t, sel[n - 1]@);
        let each = match u.compressed_size {
            Some(c) => c,
            None => u.source_size,
        };
        sat_add(
            selection_compressed_size(sel, t, n - 1),
            sat_mul(each as u64, u.occurrences@.len() as u64) as int,
        )
    }
}

/// `"<count> (size: <size>, compressed size: <compressed>)"`.
pub open spec fn selection_text(count: nat, size: nat, compressed: nat) -> Seq<char> {
    decimal(count) + " (size: "@ + decimal(size) + ", compressed size: "@ + decimal(compressed)
        + ")"@
}

/// Summary of a selection of chunks: how many, and the bytes their
/// occurrences take, uncompressed and compressed.
pub fn selection_string(selection: &[Vec<u8>], descriptors: &ChunkTable) -> (r: String)
    requires
        descriptors.wf(),
        forall|k: int| 0 <= k < selection@.len() ==> descriptors.has(#[trigger] selection@[k]@),
    ensures
        r@ == selection_text(
            selection@.len(),
            selection_size(selection@, *descriptors, selection@.len() as int) as nat,
            selection_compressed_size(selection@, *descriptors, selection@.len() as int) as nat,
        ),
{
    let mut size: u64 = 0;
    let mut compressed_size: u64 = 0;
    let mut k: usize = 0;
    while k < selection.len()
        invariant
            descriptors.wf(),
            forall|q: int| 0 <= q < selection@.len() ==> descriptors.has(#[trigger] selection@[q]@),
            k <= selection@.len(),
            size == selection_size(selection@, *descriptors, k as int),
            compressed_size == selection_compressed_size(selection@, *descriptors, k as int),
        decreases selection@.len() - k,
    {
        assert(descriptors.has(selection@[k as int]@));
        let i = match descriptors.find(selection[k].as_slice()) {
            Some(i) => i,
            None => {
                return String::new();
            },
        };
        proof {
            lemma_find_spec_is(*descriptors, selection@[k as int]@, i as int);
        }
        let u = &descriptors.usages[i];
        let count = u.occurrences.len() as u64;
        size = saturating_add(size, saturating_mul(u.source_size as u64, count));
        let each = match u.compressed_size {
            Some(c) => c,
            None => u.source_size,
        };
        compressed_size = saturating_add(compressed_size, saturating_mul(each as u64, count));
        k = k + 1;
    }
    let mut out = String::new();
    push_decimal(&mut out, selection.len() as u64);
    out.append(" (size: ");
    push_decimal(&mut out, size);
    out.append(", compressed size: ");
    push_decimal(&mut out, compressed_size);
    out.append(")");
    out
}

/// Sum of the source sizes of the first `n` unique chunks, saturating.
pub open spec fn unique_size(t: ChunkTable, n: int) -> u64
    decreases n,
{
    if n <= 0 {
        0
    } else {
        sat_add(unique_size(t, n - 1), t.usages@[n - 1].source_size as int)
    }
}

/// The report on one file: its chunk counts, average chunk size, sizes, and
/// the chunks it does not share with the other file, one line each.
pub fn print_info(path: &str, result: &ChunkerResult, diff: &[Vec<u8>]) -> (r: Vec<String>)
    requires
        result.descriptors.wf(),
        result.descriptors.hashes@.len() > 0,
        forall|k: int| 0 <= k < diff@.len() ==> result.descriptors.has(#[trigger] diff@[k]@),
    ensures
        r@.len() == 5,
        r@[0]@ == path@ + ":"@,
        r@[1]@ == "  Chunks: "@ + decimal(result.total_chunks as nat) + " (unique "@ + decimal(
            result.descriptors.hashes@.len(),
        ) + ")"@,
        r@[2]@ == "  Average chunk size: "@ + decimal(
            (unique_size(result.descriptors, result.descriptors.usages@.len() as int)
                / result.descriptors.usages@.len() as u64) as nat,
        ),
        r@[3]@ == "  Total size: "@ + decimal(result.total_size as nat) + " (compressed size: "@
            + decimal(result.total_compressed_size as nat) + ")"@,
        r@[4]@ == "  Chunks not in other: "@ + selection_text(
            diff@.len(),
            selection_size(diff@, result.descriptors, diff@.len() as int) as nat,
            selection_compressed_size(diff@, result.descriptors, diff@.len() as int) as nat,
        ),
{
    let t = &result.descriptors;
    let n = t.usages.len();
    let mut total: u64 = 0;
    let mut i: usize = 0;
    while i < n
        invariant
            t.wf(),
            n == t.usages@.len(),
            i <= n,
            total == unique_size(*t, i as int),
        decreases n - i,
    {
        total = saturating_add(total, t.usages[i].source_size as u64);
        i = i + 1;
    }
    let average = total / (n as u64);
    let mut lines: Vec<String> = Vec::new();
    let mut l0 = path.to_owned();
    l0.append(":");
    lines.push(l0);
    let mut l1 = String::new();
    l1.append("  Chunks: ");
    push_decimal(&mut l1, result.total_chunks as u64);
    l1.append(" (unique ");
    push_decimal(&mut l1, t.hashes.len() as u64);
    l1.append(")");
    lines.push(l1);
    let mut l2 = String::new();
    l2.append("  Average chunk size: ");
    push_decimal(&mut l2, average);
    lines.push(l2);
    let mut l3 = String::new();
    l3.append("  Total size: ");
    push_decimal(&mut l3, result.total_size);
    l3.append(" (compressed size: ");
    push_decimal(&mut l3, result.total_compressed_size);
    l3.append(")");
    lines.push(l3);
    let mut l4 = String::new();
    l4.append("  Chunks not in other: ");
    let sel = selection_string(diff, t);
    l4.append(sel.as_str());
    lines.push(l4);
    lines
}

/// Views of the keys among the first `n` of `hs` whose presence in `other` is `present`.
pub open spec fn select_keys(hs: Seq<Vec<u8>>, other: ChunkTable, present: bool, n: int) -> Seq<
    Seq<u8>,
>
    decreases n,
{
    if n <= 0 {
        Seq::empty()
    } else if other.has(hs[n - 1]@) == present {
        select_keys(hs, other, present, n - 1).push(hs[n - 1]@)
    } else {
        select_keys(hs, other, present, n - 1)
    }
}

pub open spec fn views(v: Seq<Vec<u8>>) -> Seq<Seq<u8>> {
    v.map_values(|h: Vec<u8>| h@)
}

/// The keys of `from` that are (`present`) or are not in `other`, in order.
pub fn select(from: &ChunkTable, other: &ChunkTable, present: bool) -> (r: Vec<Vec<u8>>)
    requires
        other.wf(),
    ensures
        views(r@) == select_keys(from.hashes@, *other, present, from.hashes@.len() as int),
{
    let mut out: Vec<Vec<u8>> = Vec::new();
    let mut i: usize = 0;
    while i < from.hashes.len()
        invariant
            other.wf(),
            i <= from.hashes@.len(),
            views(out@) == select_keys(from.hashes@, *other, present, i as int),
        decreases from.hashes@.len() - i,
    {
        let found = other.find(from.hashes[i].as_slice()).is_some();
        proof {
            if found {
                let j = other.find_spec(from.hashes@[i as int]@);
            }
        }
        if found == present {
            let ghost before = out@;
            out.push(crate::compress::copy_bytes(from.hashes[i].as_slice()));
            assert(views(out@) =~= views(before).push(from.hashes@[i as int]@));
        }
        i = i + 1;
    }
    out
}

/// Keys of `a` also in `b`.
pub fn intersection(a: &ChunkTable, b: &ChunkTable) -> (r: Vec<Vec<u8>>)
    requires
        b.wf(),
    ensures
        views(r@) == select_keys(a.hashes@, *b, true, a.hashes@.len() as int),
{
    select(a, b, true)
}

/// Keys of `a` not in `b`.
pub fn difference(a: &ChunkTable, b: &ChunkTable) -> (r: Vec<Vec<u8>>)
    requires
        b.wf(),
    ensures
        views(r@) == select_keys(a.hashes@, *b, false, a.hashes@.len() as int),
{
    select(a, b, false)
}

/// Keys of `a`, then the keys of `b` not in `a`.
pub fn union(a: &ChunkTable, b: &ChunkTable) -> (r: Vec<Vec<u8>>)
    requires
        a.wf(),
    ensures
        views(r@) == views(a.hashes@) + select_keys(b.hashes@, *a, false, b.hashes@.len() as int),
{
    let mut out: Vec<Vec<u8>> = Vec::new();
    let mut i: usize = 0;
    while i < a.hashes.len()
        invariant
            i <= a.hashes@.len(),
            views(out@) == views(a.hashes@.take(i as int)),
        decreases a.hashes@.len() - i,
    {
        let ghost before = out@;
        out.push(crate::compress::copy_bytes(a.hashes[i].as_slice()));
        assert(views(out@) =~= views(before).push(a.hashes@[i as int]@));
        assert(views(a.hashes@.take(i + 1)) =~= views(a.hashes@.take(i as int)).push(
            a.hashes@[i as int]@,
        ));
        i = i + 1;
    }
    assert(a.hashes@.take(a.hashes@.len() as int) =~= a.hashes@);
    let rest = difference(b, a);
    let mut j: usize = 0;
    let ghost base = out@;
    while j < rest.len()
        invariant
            j <= rest@.len(),
            views(out@) == views(base) + views(rest@.take(j as int)),
        decreases rest@.len() - j,
    {
        let ghost before = out@;
        out.push(crate::compress::copy_bytes(rest[j].as_slice()));
        assert(views(out@) =~= views(before).push(rest@[j as int]@));
        assert(views(rest@.take(j + 1)) =~= views(rest@.take(j as int)).push(rest@[j as int]@));
        assert(views(out@) =~= views(base) + views(rest@.take(j + 1)));
        j = j + 1;
    }
    assert(rest@.take(rest@.len() as int) =~= rest@);
    out
}

/// Usage of a chunk in either of two files: occurrences in `b` follow those in `a`.
pub open spec fn merged_occurrences(a: ChunkTable, b: ChunkTable, h: Seq<u8>) -> Seq<u64> {
    if b.has(h) {
        usage_of(a, h).occurrences@ + usage_of(b, h).occurrences@
    } else {
        usage_of(a, h).occurrences@
    }
}

fn append_u64s(out: &mut Vec<u64>, more: &Vec<u64>)
    ensures
        final(out)@ == old(out)@ + more@,
{
    let mut i: usize = 0;
    while i < more.len()
        invariant
            i <= more@.len(),
            out@ == old(out)@ + more@.take(i as int),
        decreases more@.len() - i,
    {
        out.push(more[i]);
        assert(more@.take(i + 1) =~= more@.take(i as int).push(more@[i as int]));
        i = i + 1;
    }
    assert(more@.take(more@.len() as int) =~= more@);
}

/// The chunk usages of two files together: the chunks of `a`, then those of
/// `b` that `a` lacks; a chunk in both has the occurrences of both.
pub fn merge_tables(a: &ChunkTable, b: &ChunkTable) -> (r: ChunkTable)
    requires
        a.wf(),
        b.wf(),
        a.hashes@.len() + b.hashes@.len() < u32::MAX,
    ensures
        r.wf(),
        views(r.hashes@) == views(a.hashes@) + select_keys(
            b.hashes@,
            *a,
            false,
            b.hashes@.len() as int,
        ),
        forall|i: int|
            0 <= i < a.hashes@.len() ==> {
                let u = #[trigger] r.usages@[i];
                &&& u.source_size == a.usages@[i].source_size
                &&& u.compressed_size == a.usages@[i].compressed_size
                &&& u.occurrences@ == merged_occurrences(*a, *b, a.hashes@[i]@)
            },
        forall|i: int|
            a.hashes@.len() <= i < r.hashes@.len() ==> {
                let u = #[trigger] r.usages@[i];
                let v = usage_of(*b, r.hashes@[i]@);
                &&& b.has(r.hashes@[i]@)
                &&& u.source_size == v.source_size
                &&& u.compressed_size == v.compressed_size
                &&& u.occurrences@ == v.occurrences@
            },
{
    let mut hashes: Vec<Vec<u8>> = Vec::new();
    let mut usages: Vec<ChunkUsage> = Vec::new();
    let mut index = HashIndex::new();
    let mut i: usize = 0;
    while i < a.hashes.len()
        invariant
            a.wf(),
            b.wf(),
            a.hashes@.len() + b.hashes@.len() < u32::MAX,
            index.wf(),
            index.keys().len() == hashes@.len(),
            forall|k: int| 0 <= k < hashes@.len() ==> #[trigger] index.keys()[k] == hashes@[k]@,
            i <= a.hashes@.len(),
            hashes@.len() == i,
            usages@.len() == i,
            forall|k: int| 0 <= k < i ==> (#[trigger] hashes@[k])@ == a.hashes@[k]@,
            forall|k: int|
                0 <= k < i ==> {
                    let u = #[trigger] usages@[k];
                    &&& u.source_size == a.usages@[k].source_size
                    &&& u.compressed_size == a.usages@[k].compressed_size
                    &&& u.occurrences@ == merged_occurrences(*a, *b, a.hashes@[k]@)
                },
        decreases a.hashes@.len() - i,
    {
        let mut u = a.usages[i].clone_usage();
        proof {
            lemma_find_spec_is(*a, a.hashes@[i as int]@, i as int);
        }
        match b.find(a.hashes[i].as_slice()) {
            Some(j) => {
                proof {
                    lemma_find_spec_is(*b, a.hashes@[i as int]@, j as int);
                }
                append_u64s(&mut u.occurrences, &b.usages[j].occurrences);
            },
            None => {},
        }
        let ghost before = hashes@;
        hashes.push(crate::compress::copy_bytes(a.hashes[i].as_slice()));
        index.insert(a.hashes[i].as_slice());
        usages.push(u);
        proof {
            assert forall|k: int| 0 <= k < hashes@.len() implies #[trigger] index.keys()[k]
                == hashes@[k]@ by {
                if k < i {
                    assert(hashes@[k] == before[k]);
                }
            }
        }
        i = i + 1;
    }
    let ghost na = a.hashes@.len() as int;
    let mut j: usize = 0;
    while j < b.hashes.len()
        invariant
            a.wf(),
            b.wf(),
            a.hashes@.len() + b.hashes@.len() < u32::MAX,
            hashes@.len() <= na + j,
            index.wf(),
            index.keys().len() == hashes@.len(),
            forall|k: int| 0 <= k < hashes@.len() ==> #[trigger] index.keys()[k] == hashes@[k]@,
            j <= b.hashes@.len(),
            na == a.hashes@.len(),
            hashes@.len() == usages@.len(),
            hashes@.len() >= na,
            forall|k: int| 0 <= k < na ==> (#[trigger] hashes@[k])@ == a.hashes@[k]@,
            views(hashes@.skip(na)) == select_keys(b.hashes@, *a, false, j as int),
            forall|k: int|
                0 <= k < na ==> {
                    let u = #[trigger] usages@[k];
                    &&& u.source_size == a.usages@[k].source_size
                    &&& u.compressed_size == a.usages@[k].compressed_size
                    &&& u.occurrences@ == merged_occurrences(*a, *b, a.hashes@[k]@)
                },
            forall|k: int|
                na <= k < hashes@.len() ==> {
                    let u = #[trigger] usages@[k];
                    let v = usage_of(*b, hashes@[k]@);
                    &&& b.has(hashes@[k]@)
                    &&& !a.has(hashes@[k]@)
                    &&& u.source_size == v.source_size
                    &&& u.compressed_size == v.compressed_size
                    &&& u.occurrences@ == v.occurrences@
                },
            forall|k: int|
                na <= k < hashes@.len() ==> exists|q: int|
                    0 <= q < j && (#[trigger] b.hashes@[q])@ == (#[trigger] hashes@[k])@,
        decreases b.hashes@.len() - j,
    {
        let in_a = a.find(b.hashes[j].as_slice()).is_some();
        if !in_a {
            proof {
                lemma_find_spec_is(*b, b.hashes@[j as int]@, j as int);
            }
            let ghost before = hashes@;
            hashes.push(crate::compress::copy_bytes(b.hashes[j].as_slice()));
            index.insert(b.hashes[j].as_slice());
            usages.push(b.usages[j].clone_usage());
            proof {
                assert forall|k: int| 0 <= k < hashes@.len() implies #[trigger] index.keys()[k]
                    == hashes@[k]@ by {
                    if k < before.len() {
                        assert(hashes@[k] == before[k]);
                    }
                }
                assert(hashes@.skip(na) =~= before.skip(na).push(hashes@[hashes@.len() - 1]));
                assert(views(hashes@.skip(na)) =~= views(before.skip(na)).push(b.hashes@[j as int]@));
                assert(hashes@[hashes@.len() - 1]@ == b.hashes@[j as int]@);
                assert forall|k: int| na <= k < hashes@.len() implies exists|q: int|
                    0 <= q < j + 1 && (#[trigger] b.hashes@[q])@ == (#[trigger] hashes@[k])@ by {
                    if k == hashes@.len() - 1 {
                        assert(b.hashes@[j as int]@ == hashes@[k]@);
                    } else {
                        assert(hashes@[k] == before[k]);
                    }
                }
            }
        } else {
            proof {
                assert forall|k: int| na <= k < hashes@.len() implies exists|q: int|
                    0 <= q < j + 1 && (#[trigger] b.hashes@[q])@ == (#[trigger] hashes@[k])@ by {
                    let q = choose|q: int| 0 <= q < j && (#[trigger] b.hashes@[q])@ == hashes@[k]@;
                }
            }
        }
        j = j + 1;
    }
    assert(hashes@ =~= hashes@.take(na) + hashes@.skip(na));
    assert(views(hashes@) =~= views(hashes@.take(na)) + views(hashes@.skip(na)));
    assert(views(hashes@.take(na)) =~= views(a.hashes@));
    let r = ChunkTable { hashes, usages, index };
    proof {
        assert forall|x: int, y: int| 0 <= x < y < r.hashes@.len() implies (
        #[trigger] r.hashes@[x])@ != (#[trigger] r.hashes@[y])@ by {
            if y < na {
                assert(a.hashes@[x]@ != a.hashes@[y]@);
            } else if x < na {
                // the loop invariant on `usages@[y]` says where key `y` came from
                let from_b = r.usages@[y];
                assert(!a.has(r.hashes@[y]@));
                assert(r.hashes@[x]@ == a.hashes@[x]@);
                assert(a.has(a.hashes@[x]@));
            } else {
                lemma_select_keys_distinct(*b, *a, false, b.hashes@.len() as int);
                let sk = select_keys(b.hashes@, *a, false, b.hashes@.len() as int);
                assert(views(r.hashes@.skip(na)) == sk);
                assert(sk[x - na] == r.hashes@[x]@);
                assert(sk[y - na] == r.hashes@[y]@);
                assert(sk[x - na] != sk[y - na]);
            }
        }
    }
    r
}

/// Keys selected from a table with distinct keys are distinct.
proof fn lemma_select_keys_distinct(t: ChunkTable, other: ChunkTable, present: bool, n: int)
    requires
        t.wf(),
        0 <= n <= t.hashes@.len(),
    ensures
        forall|x: int, y: int|
            0 <= x < y < select_keys(t.hashes@, other, present, n).len() ==> select_keys(
                t.hashes@,
                other,
                present,
                n,
            )[x] != select_keys(t.hashes@, other, present, n)[y],
        forall|x: int|
            #![trigger select_keys(t.hashes@, other, present, n)[x]]
            0 <= x < select_keys(t.hashes@, other, present, n).len() ==> exists|q: int|
                0 <= q < n && (#[trigger] t.hashes@[q])@ == select_keys(t.hashes@, other, present, n)[x],
    decreases n,
{
    if n > 0 {
        lemma_select_keys_distinct(t, other, present, n - 1);
        let prev = select_keys(t.hashes@, other, present, n - 1);
        let cur = select_keys(t.hashes@, other, present, n);
        if other.has(t.hashes@[n - 1]@) == present {
            assert forall|x: int| #![trigger prev[x]] 0 <= x < prev.len() implies prev[x] != t.hashes@[n - 1]@ by {
                let q = choose|q: int| 0 <= q < n - 1 && (#[trigger] t.hashes@[q])@ == prev[x];
                assert(t.hashes@[q]@ != t.hashes@[n - 1]@);
            }
            assert forall|x: int| #![trigger cur[x]] 0 <= x < cur.len() implies exists|q: int|
                0 <= q < n && (#[trigger] t.hashes@[q])@ == cur[x] by {
                if x == cur.len() - 1 {
                    assert(t.hashes@[n - 1]@ == cur[x]);
                } else {
                    let q = choose|q: int| 0 <= q < n - 1 && (#[trigger] t.hashes@[q])@ == prev[x];
                    assert(t.hashes@[q]@ == cur[x]);
                }
            }
        } else {
            assert forall|x: int| #![trigger cur[x]] 0 <= x < cur.len() implies exists|q: int|
                0 <= q < n && (#[trigger] t.hashes@[q])@ == cur[x] by {
                let q = choose|q: int| 0 <= q < n - 1 && (#[trigger] t.hashes@[q])@ == prev[x];
                assert(t.hashes@[q]@ == cur[x]);
            }
        }
    }
}

} // verus!
