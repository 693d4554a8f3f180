//! Rebuilding a source from an archive and seeds: which chunks are still
//! missing, where each chunk goes in the output, which ranges of the archive
//! to fetch, and the checks on what was fetched.
use crate::compress::bytes_equal;
use crate::dictionary::{occurrences, rebuild_size, ChunkDescriptor, ChunkDictionary};
use crate::error::Error;
use crate::hasher::{hash_sum_of, HasherBuilder};
use crate::index::HashIndex;
use vstd::prelude::*;

verus! {

/// How the output must be prepared before chunks are written to it.
pub fn check_output(is_block_device: bool, current_size: u64, source_total_size: u64) -> (r: Result<
    bool,
    Error,
>)
    ensures
        match r {
            Ok(resize) => resize == !is_block_device && (is_block_device ==> current_size
                == source_total_size),
            Err(e) => is_block_device && current_size != source_total_size && e is IO,
        },
{
    if is_block_device {
        if current_size != source_total_size {
            return Err(Error::IO("size of output device differs from the archived source".to_owned()));
        }
        Ok(false)
    } else {
        Ok(true)
    }
}

/// A contiguous range of the archive payload holding one or more wanted chunks.
#[derive(Clone, Debug)]
pub struct FetchGroup {
    pub archive_offset: u64,
    pub size: u64,
    /// Descriptor indices of the chunks in the range, in payload order.
    pub chunks: Vec<u32>,
}

/// The descriptor indices that are still missing, ascending.
pub open spec fn missing_indices(missing: Seq<bool>) -> Seq<u32>
    decreases missing.len(),
{
    if missing.len() == 0 {
        Seq::empty()
    } else if missing.last() {
        missing_indices(missing.drop_last()).push((missing.len() - 1) as u32)
    } else {
        missing_indices(missing.drop_last())
    }
}

/// Concatenation of the chunk lists of fetch groups.
pub open spec fn group_chunks(gs: Seq<FetchGroup>) -> Seq<u32>
    decreases gs.len(),
{
    if gs.len() == 0 {
        Seq::empty()
    } else {
        group_chunks(gs.drop_last()) + gs.last().chunks@
    }
}

/// Every chunk of a group lies within the group's range.
pub open spec fn group_covers(g: FetchGroup, ds: Seq<ChunkDescriptor>) -> bool {
    &&& g.chunks@.len() > 0
    &&& forall|k: int|
        0 <= k < g.chunks@.len() ==> {
            let d = ds[(#[trigger] g.chunks@[k]) as int];
            &&& g.chunks@[k] < ds.len()
            &&& g.archive_offset <= d.archive_offset
            &&& d.archive_offset + d.archive_size <= g.archive_offset + g.size
        }
}

/// Where the stored bytes of descriptor `c` end in the payload.
pub open spec fn stored_end(ds: Seq<ChunkDescriptor>, c: u32) -> int {
    ds[c as int].archive_offset + ds[c as int].archive_size
}

/// Whether descriptor `c`, starting at most `max_gap` bytes after `end` (and
/// not before it), is fetched in the same range as what ends at `end`.
pub open spec fn joins_after(ds: Seq<ChunkDescriptor>, end: int, c: u32, max_gap: u64) -> bool {
    ds[c as int].archive_offset >= end && ds[c as int].archive_offset - end <= max_gap
}

/// A group runs from the start of its first chunk to the end of its last,
/// and each chunk after the first joins the one before it.
pub open spec fn group_shape(g: FetchGroup, ds: Seq<ChunkDescriptor>, max_gap: u64) -> bool {
    &&& g.chunks@.len() > 0
    &&& g.archive_offset == ds[g.chunks@[0] as int].archive_offset
    &&& g.archive_offset + g.size == stored_end(ds, g.chunks@.last())
    &&& forall|k: int|
        1 <= k < g.chunks@.len() ==> joins_after(
            ds,
            stored_end(ds, g.chunks@[k - 1]),
            #[trigger] g.chunks@[k],
            max_gap,
        )
}

/// The first chunk of each group does not join the group before it.
pub open spec fn groups_split(gs: Seq<FetchGroup>, ds: Seq<ChunkDescriptor>, max_gap: u64) -> bool {
    forall|g: int|
        0 <= g < gs.len() - 1 ==> !joins_after(
            ds,
            gs[g].archive_offset + gs[g].size,
            (#[trigger] gs[g + 1]).chunks@[0],
            max_gap,
        )
}

/// No two descriptors share a checksum.
pub open spec fn checksums_distinct(ds: Seq<ChunkDescriptor>) -> bool {
    forall|a: int, b: int|
        0 <= a < b < ds.len() ==> (#[trigger] ds[a]).checksum@ != (#[trigger] ds[b]).checksum@
}

/// Reconstruction state: an archive's manifest and which of its chunks are
/// still missing from the output.
pub struct Reconstructor {
    dictionary: ChunkDictionary,
    missing: Vec<bool>,
    missing_count: usize,
    index: HashIndex,
    offsets: Vec<Vec<u64>>,
}

/// The stream offsets of every entry of the rebuild order that names descriptor `j`.
pub open spec fn all_occurrences(d: ChunkDictionary, j: int) -> Seq<int> {
    occurrences(d.rebuild_order@, d.chunk_descriptors@, j as u32, d.rebuild_order@.len() as int)
}

fn copy_offsets(v: &Vec<u64>) -> (r: Vec<u64>)
    ensures
        r@ == v@,
{
    let mut out: Vec<u64> = Vec::with_capacity(v.len());
    let mut i: usize = 0;
    while i < v.len()
        invariant
            i <= v@.len(),
            out@ == v@.take(i as int),
        decreases v@.len() - i,
    {
        out.push(v[i]);
        assert(v@.take(i + 1) =~= v@.take(i as int).push(v@[i as int]));
        i = i + 1;
    }
    assert(v@.take(v@.len() as int) =~= v@);
    out
}

pub open spec fn count_true(s: Seq<bool>) -> nat
    decreases s.len(),
{
    if s.len() == 0 {
        0
    } else {
        count_true(s.drop_last()) + if s.last() {
            1nat
        } else {
            0nat
        }
    }
}

proof fn lemma_count_true_update(s: Seq<bool>, i: int)
    requires
        0 <= i < s.len(),
        s[i],
    ensures
        count_true(s.update(i, false)) + 1 == count_true(s),
    decreases s.len(),
{
    let t = s.update(i, false);
    if i == s.len() - 1 {
        assert(t.drop_last() =~= s.drop_last());
    } else {
        assert(t.drop_last() =~= s.drop_last().update(i, false));
        lemma_count_true_update(s.drop_last(), i);
    }
}

proof fn lemma_count_true_zero(s: Seq<bool>, i: int)
    requires
        count_true(s) == 0,
        0 <= i < s.len(),
    ensures
        !s[i],
    decreases s.len(),
{
    if i < s.len() - 1 {
        lemma_count_true_zero(s.drop_last(), i);
    }
}

impl Reconstructor {
    pub closed spec fn dictionary(&self) -> ChunkDictionary {
        self.dictionary
    }

    /// For each descriptor, whether its chunk is still missing.
    pub closed spec fn missing(&self) -> Seq<bool> {
        self.missing@
    }

    pub closed spec fn wf(&self) -> bool {
        &&& self.dictionary.consistent()
        &&& crate::dictionary::descriptors_in_bounds(
            self.dictionary.chunk_descriptors@,
            u64::MAX as int,
        )
        &&& self.missing@.len() == self.dictionary.chunk_descriptors@.len()
        &&& self.missing@.len() <= u32::MAX
        &&& checksums_distinct(self.dictionary.chunk_descriptors@)
        &&& self.missing_count == count_true(self.missing@)
        &&& self.index.wf()
        &&& self.index.keys().len() == self.missing@.len()
        &&& forall|j: int|
            0 <= j < self.missing@.len() ==> #[trigger] self.index.keys()[j]
                == self.dictionary.chunk_descriptors@[j].checksum@
        &&& self.offsets@.len() == self.missing@.len()
        &&& forall|j: int|
            0 <= j < self.missing@.len() ==> (#[trigger] self.offsets@[j])@.map_values(
                |o: u64| o as int,
            ) == all_occurrences(self.dictionary, j)
    }

    /// Starts a reconstruction with every chunk missing, after the load-time
    /// checks of the manifest against a payload of `payload_len` bytes; a
    /// manifest in which two descriptors share a checksum is refused too.
    pub fn new(dictionary: ChunkDictionary, payload_len: u64) -> (r: Result<Reconstructor, Error>)
        ensures
            match r {
                Ok(rc) => {
                    &&& rc.wf()
                    &&& rc.dictionary() == dictionary
                    &&& forall|j: int| 0 <= j < rc.missing().len() ==> #[trigger] rc.missing()[j]
                },
                Err(e) => !(dictionary.consistent() && crate::dictionary::descriptors_in_bounds(
                    dictionary.chunk_descriptors@,
                    payload_len as int,
                ) && dictionary.chunk_descriptors@.len() <= u32::MAX && checksums_distinct(
                    dictionary.chunk_descriptors@,
                )) && e is NotAnArchive,
            },
    {
        match dictionary.validate(payload_len) {
            Err(e) => Err(e),
            Ok(()) => {
                let n = dictionary.chunk_descriptors.len();
                if n > 0xffff_ffff {
                    return Err(Error::NotAnArchive("too many chunks".to_owned()));
                }
                assert(crate::dictionary::descriptors_in_bounds(
                    dictionary.chunk_descriptors@,
                    u64::MAX as int,
                ));
                let mut missing: Vec<bool> = Vec::with_capacity(n);
                let mut index = HashIndex::new();
                let mut table: Vec<Vec<u64>> = Vec::with_capacity(n);
                let mut i: usize = 0;
                while i < n
                    invariant
                        i <= n,
                        n == dictionary.chunk_descriptors@.len(),
                        n <= u32::MAX,
                        missing@.len() == i,
                        count_true(missing@) == i,
                        forall|j: int| 0 <= j < i ==> #[trigger] missing@[j],
                        index.wf(),
                        index.keys().len() == i,
                        forall|j: int|
                            0 <= j < i ==> #[trigger] index.keys()[j]
                                == dictionary.chunk_descriptors@[j].checksum@,
                        table@.len() == i,
                        forall|j: int| 0 <= j < i ==> (#[trigger] table@[j])@.len() == 0,
                        checksums_distinct(dictionary.chunk_descriptors@.take(i as int)),
                    decreases n - i,
                {
                    let cands = index.candidates(dictionary.chunk_descriptors[i].checksum.as_slice());
                    let mut t: usize = 0;
                    while t < cands.len()
                        invariant
                            i < n,
                            n == dictionary.chunk_descriptors@.len(),
                            t <= cands@.len(),
                            index.keys().len() == i,
                            forall|j: int|
                                0 <= j < i ==> #[trigger] index.keys()[j]
                                    == dictionary.chunk_descriptors@[j].checksum@,
                            forall|x: int| 0 <= x < cands@.len() ==> #[trigger] cands@[x] < i,
                            forall|q: int|
                                0 <= q < t ==> dictionary.chunk_descriptors@[cands@[q] as int].checksum@
                                    != dictionary.chunk_descriptors@[i as int].checksum@,
                        decreases cands@.len() - t,
                    {
                        let c = cands[t] as usize;
                        if bytes_equal(
                            dictionary.chunk_descriptors[c].checksum.as_slice(),
                            dictionary.chunk_descriptors[i].checksum.as_slice(),
                        ) {
                            proof {
                                let ds = dictionary.chunk_descriptors@;
                                assert(ds[c as int].checksum@ == ds[i as int].checksum@);
                            }
                            return Err(Error::NotAnArchive("two chunks share a checksum".to_owned()));
                        }
                        t = t + 1;
                    }
                    proof {
                        let ds = dictionary.chunk_descriptors@;
                        assert forall|j: int| 0 <= j < i implies ds[j].checksum@ != ds[i as int].checksum@ by {
                            if ds[j].checksum@ == ds[i as int].checksum@ {
                                assert(index.keys()[j] == ds[i as int].checksum@);
                                assert(cands@.contains(j as u32));
                                let q = choose|q: int| 0 <= q < cands@.len() && cands@[q] == j as u32;
                                assert(cands@[q] as int == j);
                            }
                        }
                        assert forall|a: int, b: int|
                            0 <= a < b < ds.take(i + 1).len() implies (#[trigger] ds.take(i + 1)[a]).checksum@
                                != (#[trigger] ds.take(i + 1)[b]).checksum@ by {
                            if b < i {
                                assert(ds.take(i as int)[a] == ds[a]);
                                assert(ds.take(i as int)[b] == ds[b]);
                            }
                        }
                    }
                    let ghost before = missing@;
                    missing.push(true);
                    assert(missing@.drop_last() =~= before);
                    index.insert(dictionary.chunk_descriptors[i].checksum.as_slice());
                    table.push(Vec::new());
                    i = i + 1;
                }
                assert(dictionary.chunk_descriptors@.take(n as int) =~= dictionary.chunk_descriptors@);
                let order_len = dictionary.rebuild_order.len();
                let mut p: usize = 0;
                let mut offset: u64 = 0;
                while p < order_len
                    invariant
                        p <= order_len,
                        order_len == dictionary.rebuild_order@.len(),
                        n == dictionary.chunk_descriptors@.len(),
                        n <= u32::MAX,
                        dictionary.consistent(),
                        table@.len() == n,
                        offset == rebuild_size(dictionary.rebuild_order@, dictionary.chunk_descriptors@, p as int),
                        forall|j: int|
                            0 <= j < n ==> (#[trigger] table@[j])@.map_values(|o: u64| o as int)
                                == occurrences(
                                dictionary.rebuild_order@,
                                dictionary.chunk_descriptors@,
                                j as u32,
                                p as int,
                            ),
                    decreases order_len - p,
                {
                    proof {
                        crate::dictionary::lemma_rebuild_size_monotone(
                            dictionary.rebuild_order@,
                            dictionary.chunk_descriptors@,
                            p + 1,
                            order_len as int,
                        );
                    }
                    let entry = dictionary.rebuild_order[p] as usize;
                    assert(dictionary.rebuild_order@[p as int] < n);
                    let ghost old_table = table@;
                    table[entry].push(offset);
                    proof {
                        assert forall|j: int| 0 <= j < n implies (#[trigger] table@[j])@.map_values(
                            |o: u64| o as int,
                        ) == occurrences(
                            dictionary.rebuild_order@,
                            dictionary.chunk_descriptors@,
                            j as u32,
                            p + 1,
                        ) by {
                            if j == entry {
                                assert(table@[j]@ == old_table[j]@.push(offset));
                                assert(table@[j]@.map_values(|o: u64| o as int) =~= old_table[j]@.map_values(
                                    |o: u64| o as int,
                                ).push(offset as int));
                            } else {
                                assert(table@[j] == old_table[j]);
                                assert(j as u32 != dictionary.rebuild_order@[p as int]);
                            }
                        }
                    }
                    offset = offset + dictionary.chunk_descriptors[entry].source_size as u64;
                    p = p + 1;
                }
                proof {
                    assert forall|j: int| 0 <= j < n implies (#[trigger] table@[j])@.map_values(
                        |o: u64| o as int,
                    ) == all_occurrences(dictionary, j) by {}
                }
                Ok(Reconstructor { dictionary, missing, missing_count: n, index, offsets: table })
            },
        }
    }

    /// Number of chunks still missing.
    pub fn missing_count(&self) -> (r: usize)
        requires
            self.wf(),
        ensures
            r == count_true(self.missing()),
    {
        self.missing_count
    }

    /// Whether every chunk is in place; seeds need not be scanned further.
    pub fn is_complete(&self) -> (r: bool)
        requires
            self.wf(),
        ensures
            r <==> forall|j: int| 0 <= j < self.missing().len() ==> !#[trigger] self.missing()[j],
    {
        proof {
            lemma_count_true_zero_iff(self.missing@);
            assert(self.missing() == self.missing@);
        }
        self.missing_count == 0
    }

    /// A chunk found in a seed, by hash sum: if it is one of the missing
    /// chunks, it is no longer missing and the result gives every stream
    /// offset to write it at.
    pub fn take_seed_chunk(&mut self, hash: &[u8]) -> (r: Option<Vec<u64>>)
        requires
            old(self).wf(),
        ensures
            final(self).wf(),
            final(self).dictionary() == old(self).dictionary(),
            forall|j: int|
                0 <= j < final(self).missing().len() && #[trigger] final(self).missing()[j]
                    ==> final(self).dictionary().chunk_descriptors@[j].checksum@ != hash@,
            match r {
                Some(offsets) => exists|j: int|
                    0 <= j < old(self).missing().len() && old(self).missing()[j]
                        && old(self).dictionary().chunk_descriptors@[j].checksum@ == hash@
                        && final(self).missing() == old(self).missing().update(j, false)
                        && offsets@.map_values(|o: u64| o as int) == occurrences(
                        old(self).dictionary().rebuild_order@,
                        old(self).dictionary().chunk_descriptors@,
                        j as u32,
                        old(self).dictionary().rebuild_order@.len() as int,
                    ),
                None => {
                    &&& final(self).missing() == old(self).missing()
                    &&& forall|j: int|
                        0 <= j < old(self).missing().len() && #[trigger] old(self).missing()[j]
                            ==> old(self).dictionary().chunk_descriptors@[j].checksum@ != hash@
                },
            },
    {
        let cands = self.index.candidates(hash);
        let mut t: usize = 0;
        while t < cands.len()
            invariant
                self.wf(),
                *self == *old(self),
                t <= cands@.len(),
                forall|x: int| 0 <= x < cands@.len() ==> #[trigger] cands@[x] < self.missing@.len(),
                forall|j: int|
                    0 <= j < self.missing@.len() && self.index.keys()[j] == hash@
                        ==> cands@.contains(j as u32),
                forall|q: int|
                    0 <= q < t ==> !(self.missing@[cands@[q] as int]
                        && self.dictionary.chunk_descriptors@[cands@[q] as int].checksum@ == hash@),
            decreases cands@.len() - t,
        {
            let j = cands[t] as usize;
            assert(j < self.missing@.len());
            if self.missing[j] && bytes_equal(
                self.dictionary.chunk_descriptors[j].checksum.as_slice(),
                hash,
            ) {
                let offsets = copy_offsets(&self.offsets[j]);
                let ghost before = self.missing@;
                proof {
                    lemma_count_true_update(self.missing@, j as int);
                }
                self.missing.set(j, false);
                self.missing_count = self.missing_count - 1;
                assert(old(self).missing() == before);
                assert(final(self).missing() == self.missing@);
                assert(0 <= j < before.len() && before[j as int]
                    && old(self).dictionary().chunk_descriptors@[j as int].checksum@ == hash@
                    && self.missing@ == before.update(j as int, false)
                    && offsets@.map_values(|o: u64| o as int) == occurrences(
                        old(self).dictionary().rebuild_order@,
                        old(self).dictionary().chunk_descriptors@,
                        j as u32,
                        old(self).dictionary().rebuild_order@.len() as int,
                    ));
                return Some(offsets);
            }
            t = t + 1;
        }
        proof {
            assert forall|j: int|
                0 <= j < old(self).missing().len() && #[trigger] old(self).missing()[j]
                    implies old(self).dictionary().chunk_descriptors@[j].checksum@ != hash@ by {
                if old(self).dictionary().chunk_descriptors@[j].checksum@ == hash@ {
                    assert(self.index.keys()[j] == hash@);
                    assert(cands@.contains(j as u32));
                    let q = choose|q: int| 0 <= q < cands@.len() && cands@[q] == j as u32;
                    assert(cands@[q] as int == j);
                }
            }
        }
        None
    }

    /// Whether the stored bytes of descriptor `index` are compressed.
    pub fn is_compressed(&self, index: u32) -> (r: bool)
        requires
            self.wf(),
            index < self.dictionary().chunk_descriptors@.len(),
        ensures
            r == (self.dictionary().chunk_descriptors@[index as int].archive_size
                != self.dictionary().chunk_descriptors@[index as int].source_size),
    {
        let d = &self.dictionary.chunk_descriptors[index as usize];
        d.archive_size != d.source_size
    }

    /// The ranges to fetch from the archive for the missing chunks: missing
    /// chunks in index order (which is payload order for archives this library
    /// builds), a chunk joining the previous group exactly when it starts at
    /// or after that group's end and at most `max_gap` bytes after it.
    pub fn fetch_plan(&self, max_gap: u64) -> (r: Vec<FetchGroup>)
        requires
            self.wf(),
        ensures
            group_chunks(r@) == missing_indices(self.missing()),
            forall|g: int|
                0 <= g < r@.len() ==> group_shape(
                    #[trigger] r@[g],
                    self.dictionary().chunk_descriptors@,
                    max_gap,
                ),
            groups_split(r@, self.dictionary().chunk_descriptors@, max_gap),
            forall|g: int|
                0 <= g < r@.len() ==> group_covers(
                    #[trigger] r@[g],
                    self.dictionary().chunk_descriptors@,
                ),
            r@.len() == 0 <==> forall|j: int|
                0 <= j < self.missing().len() ==> !#[trigger] self.missing()[j],
    {
        let ghost ds = self.dictionary.chunk_descriptors@;
        let n = self.missing.len();
        let mut groups: Vec<FetchGroup> = Vec::new();
        let mut j: usize = 0;
        while j < n
            invariant
                self.wf(),
                ds == self.dictionary.chunk_descriptors@,
                crate::dictionary::descriptors_in_bounds(ds, u64::MAX as int),
                n == self.missing@.len(),
                j <= n,
                group_chunks(groups@) == missing_indices(self.missing@.take(j as int)),
                forall|g: int| 0 <= g < groups@.len() ==> group_covers(#[trigger] groups@[g], ds),
                forall|g: int|
                    0 <= g < groups@.len() ==> group_shape(#[trigger] groups@[g], ds, max_gap),
                groups_split(groups@, ds, max_gap),
                forall|g: int|
                    0 <= g < groups@.len() ==> #[trigger] groups@[g].archive_offset + groups@[g].size
                        <= u64::MAX,
                groups@.len() == 0 <==> forall|k: int| 0 <= k < j ==> !#[trigger] self.missing@[k],
            decreases n - j,
        {
            proof {
                let t = self.missing@.take(j + 1);
                assert(t.drop_last() =~= self.missing@.take(j as int));
                assert(t.last() == self.missing@[j as int]);
            }
            if self.missing[j] {
                let d = &self.dictionary.chunk_descriptors[j];
                assert(d.archive_offset + d.archive_size <= u64::MAX);
                let end = d.archive_offset + d.archive_size as u64;
                let last = groups.len();
                let joins = if last > 0 {
                    let g = &groups[last - 1];
                    let g_end = g.archive_offset + g.size;
                    d.archive_offset >= g_end && d.archive_offset - g_end <= max_gap
                } else {
                    false
                };
                assert(ds[j as int] == *d);
                if joins {
                    let ghost old_groups = groups@;
                    let mut g = groups.pop().unwrap();
                    let ghost og = g;
                    assert(og == old_groups[old_groups.len() - 1]);
                    assert(d.archive_offset >= og.archive_offset + og.size);
                    g.chunks.push(j as u32);
                    g.size = end - g.archive_offset;
                    groups.push(g);
                    proof {
                        assert(groups@.drop_last() =~= old_groups.drop_last());
                        assert(group_chunks(old_groups) == group_chunks(old_groups.drop_last())
                            + og.chunks@);
                        assert(group_chunks(groups@) =~= group_chunks(old_groups).push(j as u32));
                        assert(group_covers(og, ds));
                        assert forall|k: int| 0 <= k < g.chunks@.len() implies {
                            let dd = ds[(#[trigger] g.chunks@[k]) as int];
                            &&& g.chunks@[k] < ds.len()
                            &&& g.archive_offset <= dd.archive_offset
                            &&& dd.archive_offset + dd.archive_size <= g.archive_offset + g.size
                        } by {
                            if k < og.chunks@.len() {
                                assert(g.chunks@[k] == og.chunks@[k]);
                            } else {
                                assert(g.chunks@[k] == j as u32);
                            }
                        }
                        assert(group_covers(g, ds));
                        assert(group_shape(og, ds, max_gap));
                        assert(g.chunks@[0] == og.chunks@[0]);
                        assert(g.chunks@.last() == j as u32);
                        assert forall|k: int| 1 <= k < g.chunks@.len() implies joins_after(
                            ds,
                            stored_end(ds, g.chunks@[k - 1]),
                            #[trigger] g.chunks@[k],
                            max_gap,
                        ) by {
                            if k < og.chunks@.len() {
                                assert(g.chunks@[k] == og.chunks@[k]);
                                assert(g.chunks@[k - 1] == og.chunks@[k - 1]);
                            } else {
                                assert(g.chunks@[k - 1] == og.chunks@.last());
                            }
                        }
                        assert(group_shape(g, ds, max_gap));
                        assert forall|gi: int| 0 <= gi < groups@.len() implies group_covers(
                            #[trigger] groups@[gi],
                            ds,
                        ) && group_shape(groups@[gi], ds, max_gap) by {
                            if gi < groups@.len() - 1 {
                                assert(groups@[gi] == old_groups[gi]);
                            }
                        }
                        assert forall|gi: int| 0 <= gi < groups@.len() - 1 implies !joins_after(
                            ds,
                            groups@[gi].archive_offset + groups@[gi].size,
                            (#[trigger] groups@[gi + 1]).chunks@[0],
                            max_gap,
                        ) by {
                            assert(groups@[gi] == old_groups[gi]);
                            if gi + 1 < groups@.len() - 1 {
                                assert(groups@[gi + 1] == old_groups[gi + 1]);
                            } else {
                                assert(old_groups[gi + 1] == og);
                            }
                        }
                    }
                } else {
                    let mut chunks: Vec<u32> = Vec::new();
                    chunks.push(j as u32);
                    let ghost old_groups = groups@;
                    let ng = FetchGroup {
                        archive_offset: d.archive_offset,
                        size: d.archive_size as u64,
                        chunks,
                    };
                    assert(ng.chunks@[0] == j as u32);
                    assert(group_covers(ng, ds));
                    groups.push(ng);
                    proof {
                        assert(groups@.drop_last() =~= old_groups);
                        assert(group_chunks(groups@) =~= group_chunks(old_groups).push(j as u32));
                        assert(group_shape(ng, ds, max_gap));
                        assert forall|gi: int| 0 <= gi < groups@.len() implies group_covers(
                            #[trigger] groups@[gi],
                            ds,
                        ) && group_shape(groups@[gi], ds, max_gap) by {
                            if gi < groups@.len() - 1 {
                                assert(groups@[gi] == old_groups[gi]);
                            }
                        }
                        assert forall|gi: int| 0 <= gi < groups@.len() - 1 implies !joins_after(
                            ds,
                            groups@[gi].archive_offset + groups@[gi].size,
                            (#[trigger] groups@[gi + 1]).chunks@[0],
                            max_gap,
                        ) by {
                            assert(groups@[gi] == old_groups[gi]);
                            if gi + 1 < groups@.len() - 1 {
                                assert(groups@[gi + 1] == old_groups[gi + 1]);
                            } else {
                                assert(groups@[gi + 1] == ng);
                            }
                        }
                    }
                }
            }
            j = j + 1;
        }
        assert(self.missing@.take(n as int) =~= self.missing@);
        groups
    }

    /// The stored bytes of descriptor `index` within the fetched bytes of its group.
    pub fn slice_of_group(&self, group: &FetchGroup, data: &[u8], index: u32) -> (r: Vec<u8>)
        requires
            self.wf(),
            group_covers(*group, self.dictionary().chunk_descriptors@),
            group.chunks@.contains(index),
            data@.len() == group.size,
        ensures
            ({
                let d = self.dictionary().chunk_descriptors@[index as int];
                r@ == data@.subrange(
                    d.archive_offset - group.archive_offset,
                    d.archive_offset - group.archive_offset + d.archive_size,
                )
            }),
    {
        let data_len = data.len();
        let ghost k = choose|k: int| 0 <= k < group.chunks@.len() && group.chunks@[k] == index;
        assert(group.chunks@[k] == index);
        let d = &self.dictionary.chunk_descriptors[index as usize];
        assert(group.archive_offset <= d.archive_offset);
        assert(d.archive_offset + d.archive_size <= group.archive_offset + group.size);
        let start = (d.archive_offset - group.archive_offset) as usize;
        let end = start + d.archive_size as usize;
        let mut out: Vec<u8> = Vec::with_capacity(d.archive_size as usize);
        let mut i: usize = start;
        while i < end
            invariant
                start <= i <= end,
                end <= data@.len(),
                out@ == data@.subrange(start as int, i as int),
            decreases end - i,
        {
            out.push(data[i]);
            assert(data@.subrange(start as int, i + 1) =~= data@.subrange(start as int, i as int).push(
                data@[i as int],
            ));
            i = i + 1;
        }
        out
    }

    /// A chunk fetched from the archive, after decompression: as
    /// `accept_fetched`, with the hash sum that `hasher` computes from `data`.
    pub fn accept_fetched_bytes(&mut self, index: u32, data: &[u8], hasher: &HasherBuilder) -> (r:
        Result<Vec<u64>, Error>)
        requires
            old(self).wf(),
            hasher.valid(),
            index < old(self).dictionary().chunk_descriptors@.len(),
        ensures
            final(self).wf(),
            final(self).dictionary() == old(self).dictionary(),
            match r {
                Ok(offsets) => {
                    &&& old(self).dictionary().chunk_descriptors@[index as int].checksum@
                        == hash_sum_of(hasher.function, hasher.hash_length as nat, data@)
                    &&& final(self).missing() == old(self).missing().update(index as int, false)
                    &&& offsets@.map_values(|o: u64| o as int) == occurrences(
                        old(self).dictionary().rebuild_order@,
                        old(self).dictionary().chunk_descriptors@,
                        index,
                        old(self).dictionary().rebuild_order@.len() as int,
                    )
                },
                Err(e) => {
                    &&& old(self).dictionary().chunk_descriptors@[index as int].checksum@
                        != hash_sum_of(hasher.function, hasher.hash_length as nat, data@)
                    &&& e is ChecksumMismatch
                    &&& final(self).missing() == old(self).missing()
                },
            },
    {
        let hash = hasher.hash_sum(data);
        self.accept_fetched(index, hash.as_slice())
    }

    /// A chunk fetched from the archive, after decompression, with the hash
    /// sum of its bytes: if the hash sum is the descriptor's checksum, the chunk
    /// is no longer missing and the result gives every stream offset to write
    /// it at; otherwise `Error::ChecksumMismatch`.
    pub fn accept_fetched(&mut self, index: u32, hash: &[u8]) -> (r: Result<Vec<u64>, Error>)
        requires
            old(self).wf(),
            index < old(self).dictionary().chunk_descriptors@.len(),
        ensures
            final(self).wf(),
            final(self).dictionary() == old(self).dictionary(),
            match r {
                Ok(offsets) => {
                    &&& old(self).dictionary().chunk_descriptors@[index as int].checksum@ == hash@
                    &&& final(self).missing() == old(self).missing().update(index as int, false)
                    &&& offsets@.map_values(|o: u64| o as int) == occurrences(
                        old(self).dictionary().rebuild_order@,
                        old(self).dictionary().chunk_descriptors@,
                        index,
                        old(self).dictionary().rebuild_order@.len() as int,
                    )
                },
                Err(e) => {
                    &&& old(self).dictionary().chunk_descriptors@[index as int].checksum@ != hash@
                    &&& e is ChecksumMismatch
                    &&& final(self).missing() == old(self).missing()
                },
            },
    {
        if !bytes_equal(self.dictionary.chunk_descriptors[index as usize].checksum.as_slice(), hash) {
            return Err(Error::ChecksumMismatch("fetched chunk has the wrong checksum".to_owned()));
        }
        let offsets = copy_offsets(&self.offsets[index as usize]);
        if self.missing[index as usize] {
            proof {
                lemma_count_true_update(self.missing@, index as int);
            }
            self.missing.set(index as usize, false);
            self.missing_count = self.missing_count - 1;
        } else {
            assert(self.missing@.update(index as int, false) =~= self.missing@);
        }
        Ok(offsets)
    }
}

proof fn lemma_count_true_zero_iff(s: Seq<bool>)
    ensures
        count_true(s) == 0 <==> forall|j: int| 0 <= j < s.len() ==> !#[trigger] s[j],
{
    if count_true(s) == 0 {
        assert forall|j: int| 0 <= j < s.len() implies !#[trigger] s[j] by {
            lemma_count_true_zero(s, j);
        }
    }
    if forall|j: int| 0 <= j < s.len() ==> !#[trigger] s[j] {
        lemma_count_true_all_false(s);
    }
}

proof fn lemma_count_true_all_false(s: Seq<bool>)
    requires
        forall|j: int| 0 <= j < s.len() ==> !#[trigger] s[j],
    ensures
        count_true(s) == 0,
    decreases s.len(),
{
    if s.len() > 0 {
        lemma_count_true_all_false(s.drop_last());
    }
}

/// Law: the offsets at which each chunk is written cover every entry of the
/// rebuild order, so once every chunk is written at its offsets the output is
/// complete.
pub proof fn lemma_offsets_cover(order: Seq<u32>, ds: Seq<ChunkDescriptor>, p: int, n: int)
    requires
        0 <= p < n <= order.len(),
    ensures
        occurrences(order, ds, order[p], n).contains(rebuild_size(order, ds, p)),
    decreases n,
{
    let occ = occurrences(order, ds, order[p], n);
    if p == n - 1 {
        assert(occ.last() == rebuild_size(order, ds, p));
        assert(occ[occ.len() - 1] == rebuild_size(order, ds, p));
    } else {
        lemma_offsets_cover(order, ds, p, n - 1);
        let prev = occurrences(order, ds, order[p], n - 1);
        let k = choose|k: int| 0 <= k < prev.len() && prev[k] == rebuild_size(order, ds, p);
        if order[n - 1] == order[p] {
            assert(occ[k] == prev[k]);
        }
    }
}

} // verus!
