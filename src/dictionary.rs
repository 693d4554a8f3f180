//! The chunk dictionary (manifest): the description of an archive's chunks and
//! of how they rebuild the source, with the checks an archive must pass on load.
use crate::chunker::{Config, FilterBits, FilterConfig};
use crate::error::Error;
use crate::hasher::HashFunction;
use vstd::prelude::*;

verus! {

/// One unique chunk of an archive.
#[derive(Clone, Debug)]
pub struct ChunkDescriptor {
    /// Hash sum of the chunk's bytes.
    pub checksum: Vec<u8>,
    /// Uncompressed length.
    pub source_size: u32,
    /// Where its stored bytes begin in the payload.
    pub archive_offset: u64,
    /// Length of its stored bytes; equal to `source_size` when stored uncompressed.
    pub archive_size: u32,
}

/// Chunking algorithm recorded in an archive.
#[derive(Clone, Copy, Debug, PartialEq, Eq, Structural)]
pub enum ChunkingAlgorithm {
    BuzHash,
    RollSum,
    FixedSize,
}

/// Chunker configuration as an archive records it.
#[derive(Clone, Copy, Debug, PartialEq, Eq, Structural)]
pub struct ChunkerParameters {
    pub chunk_filter_bits: u32,
    pub min_chunk_size: u32,
    pub max_chunk_size: u32,
    pub rolling_hash_window_size: u32,
    pub chunk_hash_length: u32,
    pub chunking_algorithm: ChunkingAlgorithm,
}

/// Codec of the stored chunks.
#[derive(Clone, Copy, Debug, PartialEq, Eq, Structural)]
pub enum CompressionType {
    Uncompressed,
    Brotli,
    Lz4,
    Zstd,
    Xz,
}

/// Codec and level of the stored chunks.
#[derive(Clone, Copy, Debug, PartialEq, Eq, Structural)]
pub struct ChunkCompression {
    pub compression: CompressionType,
    pub compression_level: u32,
}

/// The manifest of an archive.
#[derive(Clone, Debug)]
pub struct ChunkDictionary {
    /// For each chunk of the source, in order, the index of its descriptor.
    pub rebuild_order: Vec<u32>,
    pub application_version: String,
    /// One descriptor per unique chunk, in ascending `archive_offset` order.
    pub chunk_descriptors: Vec<ChunkDescriptor>,
    /// Full digest of the source.
    pub source_checksum: Vec<u8>,
    pub chunk_compression: ChunkCompression,
    pub source_total_size: u64,
    pub chunker_params: ChunkerParameters,
    pub chunk_hash_algorithm: HashFunction,
}

/// The parameters that record configuration `c` with hash sums of `hash_length` bytes.
pub open spec fn parameters_of(c: Config, hash_length: usize) -> ChunkerParameters {
    match c {
        Config::BuzHash(f) => ChunkerParameters {
            chunk_filter_bits: f.filter_bits.0,
            min_chunk_size: f.min_chunk_size as u32,
            max_chunk_size: f.max_chunk_size as u32,
            rolling_hash_window_size: f.window_size as u32,
            chunk_hash_length: hash_length as u32,
            chunking_algorithm: ChunkingAlgorithm::BuzHash,
        },
        Config::RollSum(f) => ChunkerParameters {
            chunk_filter_bits: f.filter_bits.0,
            min_chunk_size: f.min_chunk_size as u32,
            max_chunk_size: f.max_chunk_size as u32,
            rolling_hash_window_size: f.window_size as u32,
            chunk_hash_length: hash_length as u32,
            chunking_algorithm: ChunkingAlgorithm::RollSum,
        },
        Config::FixedSize(n) => ChunkerParameters {
            chunk_filter_bits: 0,
            min_chunk_size: 0,
            max_chunk_size: n as u32,
            rolling_hash_window_size: 0,
            chunk_hash_length: hash_length as u32,
            chunking_algorithm: ChunkingAlgorithm::FixedSize,
        },
    }
}

/// Whether every size of `c` and `hash_length` fits the archive's 32-bit fields.
pub open spec fn fits_parameters(c: Config, hash_length: usize) -> bool {
    &&& hash_length <= u32::MAX
    &&& match c {
        Config::BuzHash(f) => f.min_chunk_size <= u32::MAX && f.max_chunk_size <= u32::MAX
            && f.window_size <= u32::MAX,
        Config::RollSum(f) => f.min_chunk_size <= u32::MAX && f.max_chunk_size <= u32::MAX
            && f.window_size <= u32::MAX,
        Config::FixedSize(n) => n <= u32::MAX,
    }
}

/// The configuration that parameters `p` record.
pub open spec fn config_of(p: ChunkerParameters) -> Config {
    let f = FilterConfig {
        filter_bits: FilterBits(p.chunk_filter_bits),
        min_chunk_size: p.min_chunk_size as usize,
        max_chunk_size: p.max_chunk_size as usize,
        window_size: p.rolling_hash_window_size as usize,
    };
    match p.chunking_algorithm {
        ChunkingAlgorithm::BuzHash => Config::BuzHash(f),
        ChunkingAlgorithm::RollSum => Config::RollSum(f),
        ChunkingAlgorithm::FixedSize => Config::FixedSize(p.max_chunk_size as usize),
    }
}

/// Records a chunker configuration; fails with `Error::Config` when a size
/// does not fit the archive's 32-bit fields.
pub fn chunker_parameters(c: &Config, hash_length: usize) -> (r: Result<ChunkerParameters, Error>)
    ensures
        match r {
            Ok(p) => fits_parameters(*c, hash_length) && p == parameters_of(*c, hash_length),
            Err(e) => !fits_parameters(*c, hash_length) && e is Config,
        },
{
    let max32: usize = 0xffff_ffff;
    let fits = hash_length <= max32 && match c {
        Config::BuzHash(f) => f.min_chunk_size <= max32 && f.max_chunk_size <= max32
            && f.window_size <= max32,
        Config::RollSum(f) => f.min_chunk_size <= max32 && f.max_chunk_size <= max32
            && f.window_size <= max32,
        Config::FixedSize(n) => *n <= max32,
    };
    if !fits {
        return Err(Error::Config("chunker parameter does not fit in 32 bits".to_owned()));
    }
    let p = match c {
        Config::BuzHash(f) => ChunkerParameters {
            chunk_filter_bits: f.filter_bits.0,
            min_chunk_size: f.min_chunk_size as u32,
            max_chunk_size: f.max_chunk_size as u32,
            rolling_hash_window_size: f.window_size as u32,
            chunk_hash_length: hash_length as u32,
            chunking_algorithm: ChunkingAlgorithm::BuzHash,
        },
        Config::RollSum(f) => ChunkerParameters {
            chunk_filter_bits: f.filter_bits.0,
            min_chunk_size: f.min_chunk_size as u32,
            max_chunk_size: f.max_chunk_size as u32,
            rolling_hash_window_size: f.window_size as u32,
            chunk_hash_length: hash_length as u32,
            chunking_algorithm: ChunkingAlgorithm::RollSum,
        },
        Config::FixedSize(n) => ChunkerParameters {
            chunk_filter_bits: 0,
            min_chunk_size: 0,
            max_chunk_size: *n as u32,
            rolling_hash_window_size: 0,
            chunk_hash_length: hash_length as u32,
            chunking_algorithm: ChunkingAlgorithm::FixedSize,
        },
    };
    Ok(p)
}

/// The chunker configuration that an archive records; fails with
/// `Error::Config` when it violates the configuration invariants.
pub fn chunker_config(p: &ChunkerParameters) -> (r: Result<Config, Error>)
    ensures
        match r {
            Ok(c) => c == config_of(*p) && c.valid(),
            Err(e) => !config_of(*p).valid() && e is Config,
        },
{
    let f = FilterConfig {
        filter_bits: FilterBits(p.chunk_filter_bits),
        min_chunk_size: p.min_chunk_size as usize,
        max_chunk_size: p.max_chunk_size as usize,
        window_size: p.rolling_hash_window_size as usize,
    };
    let c = match p.chunking_algorithm {
        ChunkingAlgorithm::BuzHash => Config::BuzHash(f),
        ChunkingAlgorithm::RollSum => Config::RollSum(f),
        ChunkingAlgorithm::FixedSize => Config::FixedSize(p.max_chunk_size as usize),
    };
    if c.is_valid() {
        Ok(c)
    } else {
        Err(Error::Config("invalid chunker parameters in archive".to_owned()))
    }
}

/// Law: recording a valid configuration and reading it back gives the same
/// configuration.
pub proof fn lemma_parameters_round_trip(c: Config, hash_length: usize)
    requires
        c.valid(),
        fits_parameters(c, hash_length),
    ensures
        config_of(parameters_of(c, hash_length)) == c,
        config_of(parameters_of(c, hash_length)).valid(),
{
}

/// Total source size of the first `n` entries of the rebuild order.
pub open spec fn rebuild_size(order: Seq<u32>, ds: Seq<ChunkDescriptor>, n: int) -> int
    decreases n,
{
    if n <= 0 {
        0
    } else {
        rebuild_size(order, ds, n - 1) + ds[order[n - 1] as int].source_size
    }
}

/// Every entry of the rebuild order names a descriptor.
pub open spec fn order_in_range(order: Seq<u32>, n: int) -> bool {
    forall|p: int| 0 <= p < order.len() ==> #[trigger] order[p] < n
}

/// Every descriptor's stored bytes lie within a payload of `len` bytes.
pub open spec fn descriptors_in_bounds(ds: Seq<ChunkDescriptor>, len: int) -> bool {
    forall|i: int|
        0 <= i < ds.len() ==> #[trigger] ds[i].archive_offset + ds[i].archive_size <= len
}

impl ChunkDictionary {
    /// The rebuild order names only existing descriptors and adds up to the
    /// source size.
    pub open spec fn consistent(&self) -> bool {
        &&& order_in_range(self.rebuild_order@, self.chunk_descriptors@.len() as int)
        &&& rebuild_size(self.rebuild_order@, self.chunk_descriptors@, self.rebuild_order@.len() as int)
            == self.source_total_size
    }

    /// Stream offset at which entry `p` of the rebuild order starts.
    pub open spec fn source_offset(&self, p: int) -> int {
        rebuild_size(self.rebuild_order@, self.chunk_descriptors@, p)
    }

    /// The load-time checks: every index of the rebuild order names a
    /// descriptor, the sizes along the rebuild order add up to the source size,
    /// and every descriptor's bytes lie within a payload of `payload_len`
    /// bytes. A failure is `Error::NotAnArchive`.
    pub fn validate(&self, payload_len: u64) -> (r: Result<(), Error>)
        ensures
            r is Ok <==> (self.consistent() && descriptors_in_bounds(
                self.chunk_descriptors@,
                payload_len as int,
            )),
            r matches Err(e) ==> e is NotAnArchive,
    {
        let n = self.chunk_descriptors.len();
        let mut i: usize = 0;
        while i < n
            invariant
                i <= n,
                n == self.chunk_descriptors@.len(),
                forall|k: int|
                    0 <= k < i ==> #[trigger] self.chunk_descriptors@[k].archive_offset
                        + self.chunk_descriptors@[k].archive_size <= payload_len,
            decreases n - i,
        {
            let d = &self.chunk_descriptors[i];
            if d.archive_offset > payload_len || (d.archive_size as u64) > payload_len
                - d.archive_offset {
                return Err(Error::NotAnArchive("chunk lies outside the archive".to_owned()));
            }
            i = i + 1;
        }
        let order_len = self.rebuild_order.len();
        let mut p: usize = 0;
        let mut total: u64 = 0;
        while p < order_len
            invariant
                p <= order_len,
                order_len == self.rebuild_order@.len(),
                n == self.chunk_descriptors@.len(),
                forall|q: int| 0 <= q < p ==> #[trigger] self.rebuild_order@[q] < n,
                total == rebuild_size(self.rebuild_order@, self.chunk_descriptors@, p as int),
                total <= self.source_total_size,
            decreases order_len - p,
        {
            let index = self.rebuild_order[p];
            if index as usize >= n {
                return Err(Error::NotAnArchive("rebuild order names a missing chunk".to_owned()));
            }
            let size = self.chunk_descriptors[index as usize].source_size as u64;
            if size > self.source_total_size - total {
                proof {
                    lemma_rebuild_size_monotone(
                        self.rebuild_order@,
                        self.chunk_descriptors@,
                        p + 1,
                        order_len as int,
                    );
                }
                return Err(Error::NotAnArchive("chunk sizes exceed the source size".to_owned()));
            }
            total = total + size;
            p = p + 1;
        }
        if total != self.source_total_size {
            return Err(Error::NotAnArchive("chunk sizes differ from the source size".to_owned()));
        }
        Ok(())
    }

    /// Stream offsets of every occurrence of descriptor `index` in the rebuild
    /// order, in order.
    pub fn chunk_source_offsets(&self, index: u32) -> (r: Vec<u64>)
        requires
            self.consistent(),
        ensures
            r@.map_values(|o: u64| o as int) == occurrences(
                self.rebuild_order@,
                self.chunk_descriptors@,
                index,
                self.rebuild_order@.len() as int,
            ),
    {
        let order_len = self.rebuild_order.len();
        let mut out: Vec<u64> = Vec::new();
        let mut p: usize = 0;
        let mut offset: u64 = 0;
        while p < order_len
            invariant
                p <= order_len,
                order_len == self.rebuild_order@.len(),
                self.consistent(),
                offset == rebuild_size(self.rebuild_order@, self.chunk_descriptors@, p as int),
                out@.map_values(|o: u64| o as int) == occurrences(
                    self.rebuild_order@,
                    self.chunk_descriptors@,
                    index,
                    p as int,
                ),
            decreases order_len - p,
        {
            proof {
                lemma_rebuild_size_monotone(
                    self.rebuild_order@,
                    self.chunk_descriptors@,
                    p + 1,
                    order_len as int,
                );
            }
            let entry = self.rebuild_order[p];
            if entry == index {
                out.push(offset);
            }
            assert(out@.map_values(|o: u64| o as int) =~= occurrences(
                self.rebuild_order@,
                self.chunk_descriptors@,
                index,
                p + 1,
            ));
            offset = offset + self.chunk_descriptors[entry as usize].source_size as u64;
            p = p + 1;
        }
        out
    }
}

/// Stream offsets of the entries among the first `n` of the rebuild order
/// that name descriptor `index`.
pub open spec fn occurrences(order: Seq<u32>, ds: Seq<ChunkDescriptor>, index: u32, n: int) -> Seq<
    int,
>
    decreases n,
{
    if n <= 0 {
        Seq::empty()
    } else if order[n - 1] == index {
        occurrences(order, ds, index, n - 1).push(rebuild_size(order, ds, n - 1))
    } else {
        occurrences(order, ds, index, n - 1)
    }
}

pub proof fn lemma_rebuild_size_monotone(order: Seq<u32>, ds: Seq<ChunkDescriptor>, a: int, b: int)
    requires
        0 <= a <= b,
    ensures
        rebuild_size(order, ds, a) <= rebuild_size(order, ds, b),
    decreases b - a,
{
    if a < b {
        lemma_rebuild_size_monotone(order, ds, a, b - 1);
    }
}

} // verus!
