use bitar::archive::{build_header, header_length, open_header, PREFIX_LEN};
use bitar::chunker::{chunk_all, Config, FilterBits, FilterConfig};
use bitar::compress::ArchiveBuilder;
use bitar::dictionary::{
    chunker_config, chunker_parameters, ChunkCompression, ChunkDescriptor, ChunkDictionary,
    CompressionType,
};
use bitar::error::Error;
use bitar::hasher::{HashFunction, HasherBuilder};
use bitar::unpack::{check_output, Reconstructor};

fn hex(b: &[u8]) -> String {
    b.iter().map(|x| format!("{:02x}", x)).collect()
}

fn lcg_source(len: usize, mut x: u64) -> Vec<u8> {
    let mut out = Vec::with_capacity(len);
    for _ in 0..len {
        x = x.wrapping_mul(6364136223846793005).wrapping_add(1442695040888963407);
        out.push((x >> 33) as u8);
    }
    out
}

const EMPTY_BLAKE2B: &str = "786a02f742015903c6c6fd852552d272912f4740e15847618a86e217f71f5419d25e1031afee585313896444934eb04b903a685b1448b755d56f701afe9be2ce";
const ABC_BLAKE2B: &str = "ba80a53f981c4d0d6a2797b69f12f6e94c212f14685ac4b74b12bb6fdbffa2d17d87c5392aab792dc252d5de4533cc9518d38aa8dbf1925ab92386edd4009923";
const EMPTY_BLAKE3: &str = "af1349b9f5f9a1a6a0404dea36dcc9499bcb25c9adc112b7cc9a93cae41f3262";

fn rollsum() -> Config {
    Config::RollSum(FilterConfig {
        filter_bits: FilterBits(6),
        min_chunk_size: 64,
        max_chunk_size: 1024,
        window_size: 16,
    })
}

fn hasher() -> HasherBuilder {
    HasherBuilder { hash_length: 32, function: HashFunction::Blake2 }
}

fn build(data: &[u8], config: Config, hb: HasherBuilder) -> (ChunkDictionary, Vec<u8>) {
    let chunks = chunk_all(config, data).unwrap();
    let mut builder = ArchiveBuilder::new(HashFunction::Blake2);
    let mut payload = Vec::new();
    for (_, chunk) in &chunks {
        let hash = hb.hash_sum(chunk);
        if let Some(bytes) = builder.add_chunk(chunk, &hash, None) {
            payload.extend(bytes);
        }
    }
    assert_eq!(builder.payload_size(), payload.len() as u64);
    let params = chunker_parameters(&config, hb.hash_length).unwrap();
    let compression = ChunkCompression { compression: CompressionType::Uncompressed, compression_level: 0 };
    let dict = builder.into_dictionary("0.1.0".to_string(), compression, params, hb.function);
    (dict, payload)
}

fn unpack(dict: &ChunkDictionary, payload: &[u8], seeds: &[&[u8]], config: Config, hb: HasherBuilder) -> (Vec<u8>, usize) {
    let mut rc = Reconstructor::new(dict.clone(), payload.len() as u64).unwrap();
    let mut out = vec![0u8; dict.source_total_size as usize];
    for seed in seeds {
        if rc.is_complete() {
            break;
        }
        for (_, chunk) in chunk_all(config, seed).unwrap() {
            let hash = hb.hash_sum(&chunk);
            if let Some(offsets) = rc.take_seed_chunk(&hash) {
                for o in offsets {
                    out[o as usize..o as usize + chunk.len()].copy_from_slice(&chunk);
                }
            }
        }
    }
    let plan = rc.fetch_plan(0);
    for group in &plan {
        let start = group.archive_offset as usize;
        let bytes = &payload[start..start + group.size as usize];
        for &index in &group.chunks {
            assert!(!rc.is_compressed(index));
            let chunk = rc.slice_of_group(group, bytes, index);
            let hash = hb.hash_sum(&chunk);
            for o in rc.accept_fetched(index, &hash).unwrap() {
                out[o as usize..o as usize + chunk.len()].copy_from_slice(&chunk);
            }
        }
    }
    assert!(rc.is_complete());
    (out, plan.len())
}

#[test]
fn compress_then_unpack_without_seeds() {
    let data = lcg_source(200_000, 7);
    let (dict, payload) = build(&data, rollsum(), hasher());
    assert_eq!(dict.source_total_size, data.len() as u64);
    let (out, fetches) = unpack(&dict, &payload, &[], rollsum(), hasher());
    assert_eq!(out, data);
    assert!(fetches >= 1);
    let digest = HasherBuilder { hash_length: 64, function: HashFunction::Blake2 }.hash_sum(&out);
    assert_eq!(digest, dict.source_checksum);
}

#[test]
fn compress_then_unpack_from_seeds_fetches_nothing() {
    let data = lcg_source(100_000, 11);
    let (dict, payload) = build(&data, rollsum(), hasher());
    let unrelated = lcg_source(30_000, 99);
    let (out, fetches) = unpack(&dict, &payload, &[&unrelated, &data], rollsum(), hasher());
    assert_eq!(out, data);
    assert_eq!(fetches, 0);
}

#[test]
fn partial_seed_leaves_the_rest_to_fetch() {
    let data = lcg_source(100_000, 13);
    let (dict, payload) = build(&data, rollsum(), hasher());
    let (out, fetches) = unpack(&dict, &payload, &[&data[..40_000]], rollsum(), hasher());
    assert_eq!(out, data);
    assert!(fetches >= 1);
}

#[test]
fn repeated_block_is_stored_once() {
    let block = lcg_source(5000, 3);
    let mut data = Vec::new();
    for _ in 0..4 {
        data.extend_from_slice(&block);
    }
    let config = rollsum();
    let (dict, payload) = build(&data, config, hasher());
    let bound = (block.len() + 63) / 64;
    assert!(dict.chunk_descriptors.len() <= bound);
    assert!(payload.len() <= dict.chunk_descriptors.len() * 1024);
    assert!(payload.len() < data.len() / 2);
    let (out, _) = unpack(&dict, &payload, &[], config, hasher());
    assert_eq!(out, data);
}

#[test]
fn empty_source_gives_empty_manifest() {
    let (dict, payload) = build(&[], rollsum(), hasher());
    assert_eq!(dict.source_total_size, 0);
    assert!(dict.rebuild_order.is_empty());
    assert!(dict.chunk_descriptors.is_empty());
    assert!(payload.is_empty());
    assert_eq!(hex(&dict.source_checksum), EMPTY_BLAKE2B);
}

#[test]
fn header_layout() {
    let header = build_header(b"abc");
    assert_eq!(&header[..4], b"bita");
    assert_eq!(&header[4..12], &(3u64 + 64).to_be_bytes());
    assert_eq!(&header[12..15], b"abc");
    assert_eq!(hex(&header[15..]), ABC_BLAKE2B);
    assert_eq!(header_length(&header).unwrap(), 67);
    assert_eq!(open_header(&header).unwrap(), b"abc".to_vec());
}

#[test]
fn header_opens_with_payload_after_it() {
    let manifest = lcg_source(300, 5);
    let mut archive = build_header(&manifest);
    archive.extend_from_slice(&[9, 9, 9]);
    assert_eq!(open_header(&archive).unwrap(), manifest);
}

#[test]
fn corrupted_manifest_byte_is_checksum_mismatch() {
    let manifest = lcg_source(100, 17);
    let mut archive = build_header(&manifest);
    archive[PREFIX_LEN + 42] ^= 0x01;
    assert!(matches!(open_header(&archive), Err(Error::ChecksumMismatch(_))));
}

#[test]
fn corrupted_checksum_byte_is_checksum_mismatch() {
    let mut archive = build_header(b"manifest");
    let last = archive.len() - 1;
    archive[last] ^= 0x80;
    assert!(matches!(open_header(&archive), Err(Error::ChecksumMismatch(_))));
}

#[test]
fn wrong_magic_is_not_an_archive() {
    let mut archive = build_header(b"manifest");
    archive[0] = b'B';
    assert!(matches!(open_header(&archive), Err(Error::NotAnArchive(_))));
    assert!(matches!(header_length(&archive), Err(Error::NotAnArchive(_))));
}

#[test]
fn truncated_archive_is_not_an_archive() {
    let archive = build_header(b"manifest");
    assert!(matches!(open_header(&archive[..8]), Err(Error::NotAnArchive(_))));
    assert!(matches!(open_header(&archive[..archive.len() - 1]), Err(Error::NotAnArchive(_))));
    let mut short = archive.clone();
    short[4..12].copy_from_slice(&10u64.to_be_bytes());
    assert!(matches!(open_header(&short), Err(Error::NotAnArchive(_))));
}

#[test]
fn hash_sums_of_both_functions() {
    let b2 = HasherBuilder { hash_length: 4, function: HashFunction::Blake2 };
    assert_eq!(hex(&b2.hash_sum(b"")), "786a02f7");
    let b3 = HasherBuilder { hash_length: 32, function: HashFunction::Blake3 };
    assert_eq!(hex(&b3.hash_sum(b"")), EMPTY_BLAKE3);
    let b3_long = HasherBuilder { hash_length: 40, function: HashFunction::Blake3 };
    let long = b3_long.hash_sum(b"");
    assert_eq!(long.len(), 40);
    assert_eq!(hex(&long[..32]), EMPTY_BLAKE3);
    assert_eq!(HashFunction::Blake3.name(), "Blake3");
}

#[test]
fn incremental_hasher_matches_one_step() {
    let builder = HasherBuilder { hash_length: 64, function: HashFunction::Blake2 };
    let mut h = builder.build();
    h.input(b"a");
    h.input(b"bc");
    assert_eq!(hex(&h.finilize()), ABC_BLAKE2B);
    let b3 = HasherBuilder { hash_length: 32, function: HashFunction::Blake3 };
    let mut h3 = b3.build();
    h3.input(b"");
    assert_eq!(hex(&h3.finilize()), EMPTY_BLAKE3);
    assert_eq!(b3.build().hash_sum(b"xyz"), b3.hash_sum(b"xyz"));
}

#[test]
fn fetched_chunk_with_wrong_hash_is_rejected() {
    let data = lcg_source(5000, 19);
    let (dict, payload) = build(&data, rollsum(), hasher());
    let mut rc = Reconstructor::new(dict, payload.len() as u64).unwrap();
    let missing = rc.missing_count();
    assert!(matches!(rc.accept_fetched(0, &[0u8; 32]), Err(Error::ChecksumMismatch(_))));
    assert_eq!(rc.missing_count(), missing);
}

#[test]
fn manifest_checks_on_load() {
    let descriptor = ChunkDescriptor { checksum: vec![1, 2], source_size: 10, archive_offset: 0, archive_size: 10 };
    let params = chunker_parameters(&rollsum(), 2).unwrap();
    let good = ChunkDictionary {
        rebuild_order: vec![0, 0],
        application_version: String::new(),
        chunk_descriptors: vec![descriptor],
        source_checksum: vec![],
        chunk_compression: ChunkCompression { compression: CompressionType::Uncompressed, compression_level: 0 },
        source_total_size: 20,
        chunker_params: params,
        chunk_hash_algorithm: HashFunction::Blake2,
    };
    assert!(good.validate(10).is_ok());
    assert_eq!(good.chunk_source_offsets(0), vec![0, 10]);
    assert!(matches!(good.validate(9), Err(Error::NotAnArchive(_))));
    let mut bad_index = good.clone();
    bad_index.rebuild_order = vec![0, 1];
    assert!(matches!(bad_index.validate(10), Err(Error::NotAnArchive(_))));
    let mut bad_size = good.clone();
    bad_size.source_total_size = 21;
    assert!(matches!(bad_size.validate(10), Err(Error::NotAnArchive(_))));
    bad_size.source_total_size = 19;
    assert!(matches!(bad_size.validate(10), Err(Error::NotAnArchive(_))));
    assert!(matches!(Reconstructor::new(bad_index, 10), Err(Error::NotAnArchive(_))));
}

#[test]
fn output_checks() {
    assert!(matches!(check_output(true, 5, 6), Err(Error::IO(_))));
    assert_eq!(check_output(true, 6, 6).unwrap(), false);
    assert_eq!(check_output(false, 0, 6).unwrap(), true);
}

#[test]
fn chunker_parameters_round_trip() {
    let configs = [
        rollsum(),
        Config::BuzHash(FilterConfig { filter_bits: FilterBits(9), min_chunk_size: 5, max_chunk_size: 50, window_size: 7 }),
        Config::FixedSize(4096),
    ];
    for c in configs {
        let p = chunker_parameters(&c, 32).unwrap();
        assert_eq!(p.chunk_hash_length, 32);
        assert_eq!(chunker_config(&p).unwrap(), c);
    }
    assert!(matches!(chunker_parameters(&Config::FixedSize(1usize << 40), 32), Err(Error::Config(_))));
    let mut p = chunker_parameters(&rollsum(), 32).unwrap();
    p.min_chunk_size = 5000;
    assert!(matches!(chunker_config(&p), Err(Error::Config(_))));
}

#[test]
fn compressed_form_kept_only_when_shorter() {
    let mut builder = ArchiveBuilder::new(HashFunction::Blake2);
    let a = vec![7u8; 100];
    let b = vec![8u8; 100];
    assert_eq!(builder.add_chunk(&a, b"ha", Some(vec![1, 2, 3])), Some(vec![1, 2, 3]));
    assert_eq!(builder.add_chunk(&b, b"hb", Some(vec![0u8; 100])), Some(b.clone()));
    assert_eq!(builder.add_chunk(&a, b"ha", None), None);
    assert_eq!(builder.lookup(b"hb"), Some(1));
    assert_eq!(builder.lookup(b"hc"), None);
    assert_eq!(builder.unique_count(), 2);
    assert_eq!(builder.source_size(), 300);
    assert_eq!(builder.payload_size(), 103);
    let params = chunker_parameters(&Config::FixedSize(100), 2).unwrap();
    let compression = ChunkCompression { compression: CompressionType::Zstd, compression_level: 3 };
    let dict = builder.into_dictionary("v".to_string(), compression, params, HashFunction::Blake2);
    assert_eq!(dict.rebuild_order, vec![0, 1, 0]);
    assert_eq!(dict.chunk_descriptors[0].archive_size, 3);
    assert_eq!(dict.chunk_descriptors[0].source_size, 100);
    assert_eq!(dict.chunk_descriptors[1].archive_offset, 3);
    assert_eq!(dict.chunk_descriptors[1].archive_size, 100);
    let rc = Reconstructor::new(dict, 103).unwrap();
    assert!(rc.is_compressed(0));
    assert!(!rc.is_compressed(1));
    let plan = rc.fetch_plan(0);
    assert_eq!(plan.len(), 1);
    assert_eq!(plan[0].archive_offset, 0);
    assert_eq!(plan[0].size, 103);
    assert_eq!(plan[0].chunks, vec![0, 1]);
}

#[test]
fn error_wrap_keeps_the_cause() {
    let e = Error::Other("inner".to_string()).wrap("outer");
    match e {
        Error::Wrapped(desc, inner) => {
            assert_eq!(desc, "outer");
            assert!(matches!(*inner, Error::Other(ref s) if s == "inner"));
        }
        _ => panic!("not wrapped"),
    }
}

#[test]
fn fetch_plan_coalesces_by_gap() {
    let mut builder = ArchiveBuilder::new(HashFunction::Blake2);
    for (chunk, hash) in [(vec![1u8; 10], b"h1"), (vec![2u8; 20], b"h2"), (vec![3u8; 30], b"h3"), (vec![1u8; 10], b"h1")] {
        builder.add_chunk(&chunk, hash, None);
    }
    let params = chunker_parameters(&Config::FixedSize(64), 2).unwrap();
    let compression = ChunkCompression { compression: CompressionType::Uncompressed, compression_level: 0 };
    let dict = builder.into_dictionary("v".to_string(), compression, params, HashFunction::Blake2);
    assert_eq!(dict.rebuild_order, vec![0, 1, 2, 0]);
    let mut rc = Reconstructor::new(dict, 60).unwrap();
    assert_eq!(rc.take_seed_chunk(b"h1"), Some(vec![0, 60]));
    assert_eq!(rc.take_seed_chunk(b"h1"), None);
    assert_eq!(rc.take_seed_chunk(b"zz"), None);
    assert_eq!(rc.missing_count(), 2);
    let plan = rc.fetch_plan(0);
    assert_eq!(plan.len(), 1);
    assert_eq!((plan[0].archive_offset, plan[0].size, plan[0].chunks.clone()), (10, 50, vec![1, 2]));
    assert_eq!(rc.take_seed_chunk(b"h2"), Some(vec![10]));
    let plan = rc.fetch_plan(0);
    assert_eq!(plan.len(), 1);
    assert_eq!((plan[0].archive_offset, plan[0].size), (30, 30));
    assert_eq!(rc.accept_fetched(2, b"h3").unwrap(), vec![30]);
    assert!(rc.is_complete());
    assert!(rc.fetch_plan(0).is_empty());
}

#[test]
fn fetch_plan_splits_at_gaps() {
    let mut builder = ArchiveBuilder::new(HashFunction::Blake2);
    for (chunk, hash) in [(vec![1u8; 10], b"h1"), (vec![2u8; 20], b"h2"), (vec![3u8; 30], b"h3")] {
        builder.add_chunk(&chunk, hash, None);
    }
    let params = chunker_parameters(&Config::FixedSize(64), 2).unwrap();
    let compression = ChunkCompression { compression: CompressionType::Uncompressed, compression_level: 0 };
    let dict = builder.into_dictionary("v".to_string(), compression, params, HashFunction::Blake2);
    let mut rc = Reconstructor::new(dict, 60).unwrap();
    assert_eq!(rc.take_seed_chunk(b"h2"), Some(vec![10]));
    let tight = rc.fetch_plan(0);
    assert_eq!(tight.len(), 2);
    assert_eq!((tight[0].archive_offset, tight[0].size), (0, 10));
    assert_eq!((tight[1].archive_offset, tight[1].size), (30, 30));
    let loose = rc.fetch_plan(20);
    assert_eq!(loose.len(), 1);
    assert_eq!((loose[0].archive_offset, loose[0].size, loose[0].chunks.clone()), (0, 60, vec![0, 2]));
    let payload: Vec<u8> = [vec![1u8; 10], vec![2u8; 20], vec![3u8; 30]].concat();
    assert_eq!(rc.slice_of_group(&loose[0], &payload, 2), vec![3u8; 30]);
}

#[test]
fn shared_checksum_is_refused() {
    let d = |off: u64| ChunkDescriptor { checksum: vec![5, 5], source_size: 10, archive_offset: off, archive_size: 10 };
    let params = chunker_parameters(&rollsum(), 2).unwrap();
    let dict = ChunkDictionary {
        rebuild_order: vec![0, 1],
        application_version: String::new(),
        chunk_descriptors: vec![d(0), d(10)],
        source_checksum: vec![],
        chunk_compression: ChunkCompression { compression: CompressionType::Uncompressed, compression_level: 0 },
        source_total_size: 20,
        chunker_params: params,
        chunk_hash_algorithm: HashFunction::Blake2,
    };
    assert!(dict.validate(20).is_ok());
    assert!(matches!(Reconstructor::new(dict, 20), Err(Error::NotAnArchive(_))));
}

#[test]
fn hash_sums_split_and_truncated() {
    let long = HasherBuilder { hash_length: 64, function: HashFunction::Blake2 };
    let short = HasherBuilder { hash_length: 20, function: HashFunction::Blake2 };
    let mut a = short.build();
    a.input(b"hello ");
    a.input(b"");
    a.input(b"world");
    let sum = a.finilize();
    assert_eq!(sum, short.hash_sum(b"hello world"));
    assert_eq!(&long.hash_sum(b"hello world")[..20], &sum[..]);
    let b3 = HasherBuilder { hash_length: 48, function: HashFunction::Blake3 };
    let mut h = b3.build();
    h.input(b"hello ");
    assert_eq!(h.hash_sum(b"world"), b3.hash_sum(b"hello world"));
}

#[test]
fn builder_hashes_chunks_itself() {
    let hb = HasherBuilder { hash_length: 16, function: HashFunction::Blake2 };
    let mut builder = ArchiveBuilder::new(HashFunction::Blake2);
    let a = vec![1u8; 40];
    let b = vec![2u8; 30];
    assert_eq!(builder.add_chunk_hashed(&a, &hb, None), Some(a.clone()));
    assert_eq!(builder.add_chunk_hashed(&b, &hb, None), Some(b.clone()));
    assert_eq!(builder.add_chunk_hashed(&a, &hb, None), None);
    assert_eq!(builder.lookup(&hb.hash_sum(&b)), Some(1));
    let params = chunker_parameters(&Config::FixedSize(64), 16).unwrap();
    let compression = ChunkCompression { compression: CompressionType::Uncompressed, compression_level: 0 };
    let dict = builder.into_dictionary("v".to_string(), compression, params, HashFunction::Blake2);
    assert_eq!(dict.chunk_descriptors[0].checksum, hb.hash_sum(&a));
    assert_eq!(dict.rebuild_order, vec![0, 1, 0]);
    let payload: Vec<u8> = [a.clone(), b.clone()].concat();
    let mut rc = Reconstructor::new(dict, payload.len() as u64).unwrap();
    assert!(matches!(rc.accept_fetched_bytes(1, &a, &hb), Err(Error::ChecksumMismatch(_))));
    assert_eq!(rc.accept_fetched_bytes(1, &b, &hb).unwrap(), vec![40]);
    assert_eq!(rc.accept_fetched_bytes(0, &a, &hb).unwrap(), vec![0, 70]);
    assert!(rc.is_complete());
}
