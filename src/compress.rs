//! Building an archive from the chunks of a source: deduplication by hash
//! sum, the choice between compressed and raw storage, the payload layout and
//! the rebuild order.
use crate::chunker::{concat, lemma_concat_append, lemma_concat_push};
use crate::dictionary::{
    order_in_range, rebuild_size, ChunkCompression, ChunkDescriptor, ChunkDictionary,
    ChunkerParameters,
};
use crate::hasher::{hash_sum_of, HashFunction, Hasher, HasherBuilder, BLAKE2_DIGEST_LEN};
use crate::index::HashIndex;
use vstd::prelude::*;

verus! {

/// The bytes stored for a chunk: its compressed form when that is shorter,
/// the chunk itself otherwise.
pub open spec fn stored_form(chunk: Seq<u8>, compressed: Option<Seq<u8>>) -> Seq<u8> {
    match compressed {
        Some(c) => if c.len() < chunk.len() {
            c
        } else {
            chunk
        },
        None => chunk,
    }
}

pub open spec fn bytes_view(o: Option<Vec<u8>>) -> Option<Seq<u8>> {
    match o {
        Some(v) => Some(v@),
        None => None,
    }
}

/// The bytes that `order` rebuilds from a payload: the stored bytes of each
/// named descriptor, in order.
pub open spec fn rebuild(ds: Seq<ChunkDescriptor>, order: Seq<u32>, payload: Seq<u8>) -> Seq<u8>
    decreases order.len(),
{
    if order.len() == 0 {
        Seq::empty()
    } else {
        let d = ds[order.last() as int];
        rebuild(ds, order.drop_last(), payload) + payload.subrange(
            d.archive_offset as int,
            d.archive_offset + d.archive_size,
        )
    }
}

/// Equal hash sums mean equal chunks.
pub open spec fn hashes_identify(chunks: Seq<Seq<u8>>, hashes: Seq<Seq<u8>>) -> bool {
    forall|p: int, q: int|
        0 <= p < chunks.len() && 0 <= q < chunks.len() && #[trigger] hashes[p] == #[trigger] hashes[q]
            ==> chunks[p] == chunks[q]
}

pub fn bytes_equal(a: &[u8], b: &[u8]) -> (r: bool)
    ensures
        r == (a@ == b@),
{
    if a.len() != b.len() {
        return false;
    }
    let mut i: usize = 0;
    while i < a.len()
        invariant
            a@.len() == b@.len(),
            i <= a@.len(),
            forall|k: int| 0 <= k < i ==> a@[k] == b@[k],
        decreases a@.len() - i,
    {
        if a[i] != b[i] {
            return false;
        }
        i = i + 1;
    }
    assert(a@ =~= b@);
    true
}

pub(crate) fn copy_bytes(data: &[u8]) -> (r: Vec<u8>)
    ensures
        r@ == data@,
{
    let mut out: Vec<u8> = Vec::with_capacity(data.len());
    let mut i: usize = 0;
    while i < data.len()
        invariant
            i <= data@.len(),
            out@ == data@.take(i as int),
        decreases data@.len() - i,
    {
        out.push(data[i]);
        assert(data@.take(i + 1) =~= data@.take(i as int).push(data@[i as int]));
        i = i + 1;
    }
    assert(data@.take(data@.len() as int) =~= data@);
    out
}

/// Accumulates the chunks of a source, in source order, into the parts of an
/// archive: unique-chunk descriptors, rebuild order and payload.
pub struct ArchiveBuilder {
    unique_hashes: Vec<Vec<u8>>,
    index: HashIndex,
    descriptors: Vec<ChunkDescriptor>,
    rebuild_order: Vec<u32>,
    archive_offset: u64,
    source_size: u64,
    source_hasher: Hasher,
    chunks: Ghost<Seq<Seq<u8>>>,
    hashes: Ghost<Seq<Seq<u8>>>,
    first_pos: Ghost<Seq<int>>,
    stored: Ghost<Seq<Seq<u8>>>,
}

/// What adding `chunk` with hash sum `hash` and compressed form `compressed`
/// does: the chunk is recorded, and either it repeats an earlier hash sum
/// (`r` is `None` and the rebuild order names the earlier descriptor) or it
/// gets a new descriptor whose stored bytes `r` are appended to the payload.
pub open spec fn chunk_added(
    before: ArchiveBuilder,
    after: ArchiveBuilder,
    chunk: Seq<u8>,
    hash: Seq<u8>,
    compressed: Option<Seq<u8>>,
    r: Option<Vec<u8>>,
) -> bool {
    &&& after.chunks() == before.chunks().push(chunk)
    &&& after.hashes() == before.hashes().push(hash)
    &&& after.source_function() == before.source_function()
    &&& match before.index_of(hash) {
        Some(j) => {
            &&& r is None
            &&& after.rebuild_order() == before.rebuild_order().push(j as u32)
            &&& after.descriptors() == before.descriptors()
            &&& after.payload() == before.payload()
        },
        None => {
            let s = stored_form(chunk, compressed);
            &&& r matches Some(bytes) && bytes@ == s
            &&& after.rebuild_order() == before.rebuild_order().push(
                before.descriptors().len() as u32,
            )
            &&& after.descriptors().len() == before.descriptors().len() + 1
            &&& after.descriptors().drop_last() == before.descriptors()
            &&& after.descriptors().last().checksum@ == hash
            &&& after.descriptors().last().source_size == chunk.len()
            &&& after.descriptors().last().archive_offset == before.payload().len()
            &&& after.descriptors().last().archive_size == s.len()
            &&& after.payload() == before.payload() + s
        },
    }
}

impl ArchiveBuilder {
    /// Every chunk added, in order.
    pub closed spec fn chunks(&self) -> Seq<Seq<u8>> {
        self.chunks@
    }

    /// The hash sum given with each chunk.
    pub closed spec fn hashes(&self) -> Seq<Seq<u8>> {
        self.hashes@
    }

    pub closed spec fn descriptors(&self) -> Seq<ChunkDescriptor> {
        self.descriptors@
    }

    pub closed spec fn rebuild_order(&self) -> Seq<u32> {
        self.rebuild_order@
    }

    /// Every byte handed out to be written to the payload, in order.
    pub closed spec fn payload(&self) -> Seq<u8> {
        concat(self.stored@)
    }

    pub closed spec fn source_function(&self) -> HashFunction {
        self.source_hasher.function()
    }

    /// Position of the descriptor whose hash sum is `h`, if any.
    pub closed spec fn index_of(&self, h: Seq<u8>) -> Option<int> {
        if exists|j: int| 0 <= j < self.unique_hashes@.len() && self.unique_hashes@[j]@ == h {
            Some(choose|j: int| 0 <= j < self.unique_hashes@.len() && self.unique_hashes@[j]@ == h)
        } else {
            None
        }
    }

    pub closed spec fn wf(&self) -> bool {
        let n = self.descriptors@.len();
        let uh = self.unique_hashes@;
        let ds = self.descriptors@;
        let cs = self.chunks@;
        &&& uh.len() == n
        &&& self.index.wf()
        &&& self.index.keys().len() == n
        &&& forall|j: int| 0 <= j < n ==> #[trigger] self.index.keys()[j] == uh[j]@
        &&& self.first_pos@.len() == n
        &&& self.stored@.len() == n
        &&& n <= u32::MAX
        &&& self.rebuild_order@.len() == cs.len()
        &&& self.hashes@.len() == cs.len()
        &&& forall|j: int| 0 <= j < n ==> (#[trigger] ds[j]).checksum@ == uh[j]@
        &&& forall|j: int, k: int|
            0 <= j < k < n ==> (#[trigger] uh[j])@ != (#[trigger] uh[k])@
        &&& forall|p: int|
            0 <= p < cs.len() ==> #[trigger] self.rebuild_order@[p] < n
                && uh[self.rebuild_order@[p] as int]@ == self.hashes@[p]
        &&& forall|j: int|
            0 <= j < n ==> {
                let f = #[trigger] self.first_pos@[j];
                &&& 0 <= f < cs.len()
                &&& self.hashes@[f] == uh[j]@
                &&& ds[j].source_size == cs[f].len()
                &&& ds[j].archive_size == self.stored@[j].len()
                &&& ds[j].archive_offset == concat(self.stored@.take(j)).len()
                &&& (self.stored@[j] == cs[f] || self.stored@[j].len() < cs[f].len())
            }
        &&& self.archive_offset == concat(self.stored@).len()
        &&& self.source_size == concat(cs).len()
        &&& self.source_hasher.absorbed() == concat(cs)
        &&& self.source_hasher.hash_length() == BLAKE2_DIGEST_LEN
    }

    /// An empty archive whose source checksum uses `function`.
    pub fn new(function: HashFunction) -> (r: ArchiveBuilder)
        ensures
            r.wf(),
            r.chunks() == Seq::<Seq<u8>>::empty(),
            r.descriptors() == Seq::<ChunkDescriptor>::empty(),
            r.rebuild_order() == Seq::<u32>::empty(),
            r.payload() == Seq::<u8>::empty(),
            r.source_function() == function,
    {
        let source_hasher = HasherBuilder { hash_length: BLAKE2_DIGEST_LEN, function }.build();
        let r = ArchiveBuilder {
            unique_hashes: Vec::new(),
            index: HashIndex::new(),
            descriptors: Vec::new(),
            rebuild_order: Vec::new(),
            archive_offset: 0,
            source_size: 0,
            source_hasher,
            chunks: Ghost(Seq::empty()),
            hashes: Ghost(Seq::empty()),
            first_pos: Ghost(Seq::empty()),
            stored: Ghost(Seq::empty()),
        };
        assert(concat(Seq::<Seq<u8>>::empty()) =~= Seq::<u8>::empty());
        r
    }

    /// Total source bytes added.
    pub fn source_size(&self) -> (r: u64)
        requires
            self.wf(),
        ensures
            r == concat(self.chunks()).len(),
    {
        self.source_size
    }

    /// Total payload bytes handed out.
    pub fn payload_size(&self) -> (r: u64)
        requires
            self.wf(),
        ensures
            r == self.payload().len(),
    {
        self.archive_offset
    }

    /// Number of unique chunks.
    pub fn unique_count(&self) -> (r: usize)
        requires
            self.wf(),
        ensures
            r == self.descriptors().len(),
    {
        self.descriptors.len()
    }

    /// The descriptor index of the chunk with hash sum `hash`, if one was added.
    pub fn lookup(&self, hash: &[u8]) -> (r: Option<u32>)
        requires
            self.wf(),
        ensures
            match r {
                Some(j) => self.index_of(hash@) == Some(j as int),
                None => self.index_of(hash@) is None,
            },
    {
        let cands = self.index.candidates(hash);
        let mut t: usize = 0;
        while t < cands.len()
            invariant
                self.wf(),
                t <= cands@.len(),
                forall|x: int| 0 <= x < cands@.len() ==> #[trigger] cands@[x] < self.unique_hashes@.len(),
                forall|j: int|
                    0 <= j < self.unique_hashes@.len() && self.index.keys()[j] == hash@
                        ==> cands@.contains(j as u32),
                forall|q: int| 0 <= q < t ==> self.unique_hashes@[cands@[q] as int]@ != hash@,
            decreases cands@.len() - t,
        {
            let c = cands[t];
            assert(c < self.unique_hashes@.len());
            if bytes_equal(self.unique_hashes[c as usize].as_slice(), hash) {
                proof {
                    let k = choose|k: int|
                        0 <= k < self.unique_hashes@.len() && self.unique_hashes@[k]@ == hash@;
                    if k != c {
                        if k < c {
                            assert(self.unique_hashes@[k]@ != self.unique_hashes@[c as int]@);
                        } else {
                            assert(self.unique_hashes@[c as int]@ != self.unique_hashes@[k]@);
                        }
                    }
                }
                return Some(c);
            }
            t = t + 1;
        }
        proof {
            if exists|j: int| 0 <= j < self.unique_hashes@.len() && self.unique_hashes@[j]@ == hash@ {
                let j = choose|j: int|
                    0 <= j < self.unique_hashes@.len() && self.unique_hashes@[j]@ == hash@;
                assert(self.index.keys()[j] == hash@);
                assert(cands@.contains(j as u32));
                let q = choose|q: int| 0 <= q < cands@.len() && cands@[q] == j as u32;
                assert(self.unique_hashes@[cands@[q] as int]@ != hash@);
            }
        }
        None
    }

    /// Adds the next chunk of the source with its hash sum and, for a chunk not
    /// seen before, its compressed form (`None` when chunks are not
    /// compressed). Returns the bytes to append to the payload for a new
    /// chunk, `None` for a repeated one.
    pub fn add_chunk(&mut self, chunk: &[u8], hash: &[u8], compressed: Option<Vec<u8>>) -> (r:
        Option<Vec<u8>>)
        requires
            old(self).wf(),
            chunk@.len() <= u32::MAX,
            concat(old(self).chunks()).len() + chunk@.len() <= u64::MAX,
            old(self).payload().len() + chunk@.len() <= u64::MAX,
            old(self).descriptors().len() < u32::MAX,
        ensures
            final(self).wf(),
            chunk_added(*old(self), *final(self), chunk@, hash@, bytes_view(compressed), r),
    {
        let ghost old_self = *self;
        let found = self.lookup(hash);
        self.source_hasher.input(chunk);
        self.source_size = self.source_size + chunk.len() as u64;
        let ghost cs = self.chunks@;
        proof {
            lemma_concat_push(cs, chunk@);
        }
        self.chunks = Ghost(cs.push(chunk@));
        self.hashes = Ghost(self.hashes@.push(hash@));
        match found {
            Some(j) => {
                self.rebuild_order.push(j);
                proof {
                    let me = *self;
                    assert forall|j2: int| 0 <= j2 < me.descriptors@.len() implies {
                        let f = #[trigger] me.first_pos@[j2];
                        &&& 0 <= f < me.chunks@.len()
                        &&& me.hashes@[f] == me.unique_hashes@[j2]@
                        &&& me.descriptors@[j2].source_size == me.chunks@[f].len()
                        &&& (me.stored@[j2] == me.chunks@[f] || me.stored@[j2].len()
                            < me.chunks@[f].len())
                    } by {
                        let f = me.first_pos@[j2];
                        assert(old_self.first_pos@[j2] == f);
                        assert(me.chunks@[f] == old_self.chunks@[f]);
                        assert(me.hashes@[f] == old_self.hashes@[f]);
                    }
                    assert forall|p: int| 0 <= p < me.chunks@.len() implies #[trigger] me.rebuild_order@[p]
                        < me.descriptors@.len() && me.unique_hashes@[me.rebuild_order@[p] as int]@
                        == me.hashes@[p] by {
                        if p < old_self.chunks@.len() {
                            assert(me.rebuild_order@[p] == old_self.rebuild_order@[p]);
                        }
                    }
                }
                None
            },
            None => {
                let use_compressed = match &compressed {
                    Some(c) => c.len() < chunk.len(),
                    None => false,
                };
                let data: Vec<u8> = if use_compressed {
                    match compressed {
                        Some(c) => c,
                        None => copy_bytes(chunk),
                    }
                } else {
                    copy_bytes(chunk)
                };
                let j = self.descriptors.len();
                let d = ChunkDescriptor {
                    checksum: copy_bytes(hash),
                    source_size: chunk.len() as u32,
                    archive_offset: self.archive_offset,
                    archive_size: data.len() as u32,
                };
                self.descriptors.push(d);
                self.unique_hashes.push(copy_bytes(hash));
                self.index.insert(hash);
                self.rebuild_order.push(j as u32);
                let ghost st = self.stored@;
                proof {
                    lemma_concat_push(st, data@);
                    assert(st.push(data@).take(j as int) =~= st);
                }
                self.stored = Ghost(st.push(data@));
                self.first_pos = Ghost(self.first_pos@.push(cs.len() as int));
                self.archive_offset = self.archive_offset + data.len() as u64;
                proof {
                    let me = *self;
                    assert forall|j2: int| 0 <= j2 < me.descriptors@.len() implies {
                        let f = #[trigger] me.first_pos@[j2];
                        &&& 0 <= f < me.chunks@.len()
                        &&& me.hashes@[f] == me.unique_hashes@[j2]@
                        &&& me.descriptors@[j2].source_size == me.chunks@[f].len()
                        &&& me.descriptors@[j2].archive_size == me.stored@[j2].len()
                        &&& me.descriptors@[j2].archive_offset == concat(me.stored@.take(j2)).len()
                        &&& (me.stored@[j2] == me.chunks@[f] || me.stored@[j2].len()
                            < me.chunks@[f].len())
                    } by {
                        if j2 < j {
                            let f = me.first_pos@[j2];
                            assert(old_self.first_pos@[j2] == f);
                            assert(me.chunks@[f] == old_self.chunks@[f]);
                            assert(me.hashes@[f] == old_self.hashes@[f]);
                            assert(me.stored@.take(j2) =~= old_self.stored@.take(j2));
                            assert(me.descriptors@[j2] == old_self.descriptors@[j2]);
                        }
                    }
                    assert forall|j2: int, k: int|
                        0 <= j2 < k < me.descriptors@.len() implies (
                        #[trigger] me.unique_hashes@[j2])@ != (#[trigger] me.unique_hashes@[k])@ by {
                        if k == j {
                            assert(old_self.unique_hashes@[j2]@ != hash@);
                        }
                    }
                    assert forall|p: int| 0 <= p < me.chunks@.len() implies #[trigger] me.rebuild_order@[p]
                        < me.descriptors@.len() && me.unique_hashes@[me.rebuild_order@[p] as int]@
                        == me.hashes@[p] by {
                        if p < old_self.chunks@.len() {
                            assert(me.rebuild_order@[p] == old_self.rebuild_order@[p]);
                        }
                    }
                    assert(me.descriptors@.drop_last() =~= old_self.descriptors@);
                }
                Some(data)
            },
        }
    }

    /// Adds the next chunk of the source, as `add_chunk` does, with the hash
    /// sum that `hasher` computes from the chunk's bytes.
    pub fn add_chunk_hashed(
        &mut self,
        chunk: &[u8],
        hasher: &HasherBuilder,
        compressed: Option<Vec<u8>>,
    ) -> (r: Option<Vec<u8>>)
        requires
            old(self).wf(),
            hasher.valid(),
            chunk@.len() <= u32::MAX,
            concat(old(self).chunks()).len() + chunk@.len() <= u64::MAX,
            old(self).payload().len() + chunk@.len() <= u64::MAX,
            old(self).descriptors().len() < u32::MAX,
        ensures
            final(self).wf(),
            chunk_added(
                *old(self),
                *final(self),
                chunk@,
                hash_sum_of(hasher.function, hasher.hash_length as nat, chunk@),
                bytes_view(compressed),
                r,
            ),
    {
        let hash = hasher.hash_sum(chunk);
        self.add_chunk(chunk, hash.as_slice(), compressed)
    }

    /// Ends the build: the archive's manifest, with the full digest of the
    /// source as its source checksum.
    pub fn into_dictionary(
        self,
        application_version: String,
        chunk_compression: ChunkCompression,
        chunker_params: ChunkerParameters,
        chunk_hash_algorithm: HashFunction,
    ) -> (r: ChunkDictionary)
        requires
            self.wf(),
        ensures
            r.chunk_descriptors@ == self.descriptors(),
            r.rebuild_order@ == self.rebuild_order(),
            r.source_total_size == concat(self.chunks()).len(),
            r.source_checksum@.len() == BLAKE2_DIGEST_LEN,
            r.source_checksum@ == hash_sum_of(
                self.source_function(),
                BLAKE2_DIGEST_LEN as nat,
                concat(self.chunks()),
            ),
            r.application_version == application_version,
            r.chunk_compression == chunk_compression,
            r.chunker_params == chunker_params,
            r.chunk_hash_algorithm == chunk_hash_algorithm,
            hashes_identify(self.chunks(), self.hashes()) ==> r.consistent(),
    {
        let ghost me = self;
        proof {
            lemma_builder_consistent(me);
        }
        let source_checksum = self.source_hasher.finilize();
        ChunkDictionary {
            rebuild_order: self.rebuild_order,
            application_version,
            chunk_descriptors: self.descriptors,
            source_checksum,
            chunk_compression,
            source_total_size: self.source_size,
            chunker_params,
            chunk_hash_algorithm,
        }
    }
}

proof fn lemma_builder_sizes(b: ArchiveBuilder, n: int)
    requires
        b.wf(),
        hashes_identify(b.chunks(), b.hashes()),
        0 <= n <= b.chunks().len(),
    ensures
        rebuild_size(b.rebuild_order(), b.descriptors(), n) == concat(b.chunks().take(n)).len(),
    decreases n,
{
    if n == 0 {
        assert(b.chunks().take(0) =~= Seq::<Seq<u8>>::empty());
    } else {
        lemma_builder_sizes(b, n - 1);
        let p = n - 1;
        let j = b.rebuild_order@[p] as int;
        let f = b.first_pos@[j];
        assert(b.hashes@[f] == b.hashes@[p]);
        assert(b.chunks@[f] == b.chunks@[p]);
        assert(b.chunks().take(n) =~= b.chunks().take(n - 1).push(b.chunks()[p]));
        lemma_concat_push(b.chunks().take(n - 1), b.chunks()[p]);
    }
}

proof fn lemma_builder_consistent(b: ArchiveBuilder)
    requires
        b.wf(),
    ensures
        order_in_range(b.rebuild_order(), b.descriptors().len() as int),
        hashes_identify(b.chunks(), b.hashes()) ==> rebuild_size(
            b.rebuild_order(),
            b.descriptors(),
            b.rebuild_order().len() as int,
        ) == concat(b.chunks()).len(),
{
    assert forall|p: int| 0 <= p < b.rebuild_order().len() implies #[trigger] b.rebuild_order()[p]
        < b.descriptors().len() by {
        assert(b.rebuild_order@[p] < b.descriptors@.len());
    }
    if hashes_identify(b.chunks(), b.hashes()) {
        lemma_builder_sizes(b, b.chunks().len() as int);
        assert(b.chunks().take(b.chunks().len() as int) =~= b.chunks());
    }
}

/// The stored bytes of entry `j` sit at its offset in the concatenation.
pub proof fn lemma_concat_slice(s: Seq<Seq<u8>>, j: int)
    requires
        0 <= j < s.len(),
    ensures
        concat(s).subrange(
            concat(s.take(j)).len() as int,
            concat(s.take(j)).len() + s[j].len() as int,
        ) == s[j],
{
    assert(s =~= s.take(j + 1) + s.skip(j + 1));
    lemma_concat_append(s.take(j + 1), s.skip(j + 1));
    assert(s.take(j + 1) =~= s.take(j).push(s[j]));
    lemma_concat_push(s.take(j), s[j]);
    assert(concat(s).subrange(
        concat(s.take(j)).len() as int,
        concat(s.take(j)).len() + s[j].len() as int,
    ) =~= s[j]);
}

proof fn lemma_build_prefix(b: ArchiveBuilder, n: int)
    requires
        b.wf(),
        hashes_identify(b.chunks(), b.hashes()),
        forall|j: int|
            0 <= j < b.descriptors().len() ==> #[trigger] b.descriptors()[j].archive_size
                == b.descriptors()[j].source_size,
        0 <= n <= b.chunks().len(),
    ensures
        rebuild(b.descriptors(), b.rebuild_order().take(n), b.payload()) == concat(
            b.chunks().take(n),
        ),
    decreases n,
{
    if n == 0 {
        assert(b.chunks().take(0) =~= Seq::<Seq<u8>>::empty());
        assert(b.rebuild_order().take(0) =~= Seq::<u32>::empty());
    } else {
        lemma_build_prefix(b, n - 1);
        let p = n - 1;
        let j = b.rebuild_order@[p] as int;
        let f = b.first_pos@[j];
        assert(b.hashes@[f] == b.hashes@[p]);
        assert(b.chunks@[f] == b.chunks@[p]);
        assert(b.stored@[j] == b.chunks@[f]);
        lemma_concat_slice(b.stored@, j);
        let o = b.rebuild_order().take(n);
        assert(o.drop_last() =~= b.rebuild_order().take(n - 1));
        assert(o.last() == b.rebuild_order@[p]);
        assert(b.chunks().take(n) =~= b.chunks().take(n - 1).push(b.chunks()[p]));
        lemma_concat_push(b.chunks().take(n - 1), b.chunks()[p]);
    }
}

/// Law: when equal hash sums mean equal chunks and every chunk is stored
/// uncompressed, reading each entry of the rebuild order from the payload
/// gives back the source, chunk by chunk.
pub proof fn lemma_build_round_trip(b: ArchiveBuilder)
    requires
        b.wf(),
        hashes_identify(b.chunks(), b.hashes()),
        forall|j: int|
            0 <= j < b.descriptors().len() ==> #[trigger] b.descriptors()[j].archive_size
                == b.descriptors()[j].source_size,
    ensures
        rebuild(b.descriptors(), b.rebuild_order(), b.payload()) == concat(b.chunks()),
{
    lemma_build_prefix(b, b.chunks().len() as int);
    assert(b.chunks().take(b.chunks().len() as int) =~= b.chunks());
    assert(b.rebuild_order().take(b.chunks().len() as int) =~= b.rebuild_order());
}

/// Law: deduplication keeps one descriptor per distinct hash sum, and the
/// rebuild order names, for every chunk added, the descriptor of its hash sum.
pub proof fn lemma_dedup(b: ArchiveBuilder)
    requires
        b.wf(),
    ensures
        b.rebuild_order().len() == b.chunks().len(),
        forall|j: int, k: int|
            0 <= j < k < b.descriptors().len() ==> (#[trigger] b.descriptors()[j]).checksum@ != (
            #[trigger] b.descriptors()[k]).checksum@,
        forall|p: int|
            0 <= p < b.chunks().len() ==> #[trigger] b.rebuild_order()[p] < b.descriptors().len()
                && b.descriptors()[b.rebuild_order()[p] as int].checksum@ == b.hashes()[p],
{
    assert forall|j: int, k: int| 0 <= j < k < b.descriptors().len() implies (
    #[trigger] b.descriptors()[j]).checksum@ != (#[trigger] b.descriptors()[k]).checksum@ by {
        assert(b.descriptors@[j].checksum@ == b.unique_hashes@[j]@);
        assert(b.descriptors@[k].checksum@ == b.unique_hashes@[k]@);
    }
    assert forall|p: int| 0 <= p < b.chunks().len() implies #[trigger] b.rebuild_order()[p]
        < b.descriptors().len() && b.descriptors()[b.rebuild_order()[p] as int].checksum@
        == b.hashes()[p] by {
        assert(b.rebuild_order@[p] < b.descriptors@.len());
        assert(b.descriptors@[b.rebuild_order@[p] as int].checksum@
            == b.unique_hashes@[b.rebuild_order@[p] as int]@);
    }
}

/// Law: the payload holds the stored chunks back to back in descriptor order:
/// the first starts at 0 and each starts where the one before it ends.
pub proof fn lemma_payload_layout(b: ArchiveBuilder)
    requires
        b.wf(),
    ensures
        b.descriptors().len() > 0 ==> b.descriptors()[0].archive_offset == 0,
        forall|j: int|
            0 <= j < b.descriptors().len() - 1 ==> #[trigger] b.descriptors()[j + 1].archive_offset
                == b.descriptors()[j].archive_offset + b.descriptors()[j].archive_size,
        b.descriptors().len() > 0 ==> b.payload().len() == b.descriptors().last().archive_offset
            + b.descriptors().last().archive_size,
{
    let st = b.stored@;
    let n = b.descriptors@.len() as int;
    if n > 0 {
        assert(st.take(0) =~= Seq::<Seq<u8>>::empty());
        // mentioning `first_pos@[_]` brings in the invariant on descriptors 0 and n - 1
        let f0 = b.first_pos@[0];
        let fl = b.first_pos@[n - 1];
        assert(st.take(n - 1).push(st[n - 1]) =~= st);
        lemma_concat_push(st.take(n - 1), st[n - 1]);
    }
    assert forall|j: int| 0 <= j < n - 1 implies #[trigger] b.descriptors()[j + 1].archive_offset
        == b.descriptors()[j].archive_offset + b.descriptors()[j].archive_size by {
        // mentioning `first_pos@[_]` brings in the invariant on descriptors j and j + 1
        let fj = b.first_pos@[j];
        let fk = b.first_pos@[j + 1];
        assert(st.take(j + 1) =~= st.take(j).push(st[j]));
        lemma_concat_push(st.take(j), st[j]);
    }
}

/// Law: when every chunk was added with the hash sum of its own bytes (as
/// `add_chunk_hashed` does), every entry of the rebuild order names a
/// descriptor whose checksum is the hash sum of that entry's chunk.
pub proof fn lemma_checksums_hash_chunks(b: ArchiveBuilder, f: HashFunction, len: nat)
    requires
        b.wf(),
        forall|p: int|
            0 <= p < b.chunks().len() ==> #[trigger] b.hashes()[p] == hash_sum_of(
                f,
                len,
                b.chunks()[p],
            ),
    ensures
        forall|p: int|
            0 <= p < b.chunks().len() ==> b.descriptors()[#[trigger] b.rebuild_order()[p] as int].checksum@
                == hash_sum_of(f, len, b.chunks()[p]),
{
    lemma_dedup(b);
    assert forall|p: int| 0 <= p < b.chunks().len() implies b.descriptors()[
        #[trigger] b.rebuild_order()[p] as int].checksum@ == hash_sum_of(f, len, b.chunks()[p]) by {
        assert(b.hashes()[p] == hash_sum_of(f, len, b.chunks()[p]));
    }
}

} // verus!
