use bitar::chunker::{chunk_all, Chunker, Config, FilterBits, FilterConfig};
use bitar::error::Error;

fn rolling_configs(filter_bits: u32, min: usize, max: usize, window: usize) -> Vec<Config> {
    let f = FilterConfig {
        filter_bits: FilterBits(filter_bits),
        min_chunk_size: min,
        max_chunk_size: max,
        window_size: window,
    };
    vec![Config::RollSum(f), Config::BuzHash(f)]
}

fn xor_source(seed: usize, len: usize) -> Vec<u8> {
    let mut seed = seed;
    let mut out = Vec::with_capacity(len);
    for v in 0..len {
        seed ^= v;
        out.push((seed & 0xff) as u8);
    }
    out
}

fn lcg_source(len: usize) -> Vec<u8> {
    let mut x: u64 = 0x2545_f491_4f6c_dd1d;
    let mut out = Vec::with_capacity(len);
    for _ in 0..len {
        x = x.wrapping_mul(6364136223846793005).wrapping_add(1442695040888963407);
        out.push((x >> 33) as u8);
    }
    out
}

fn chunk_with_pieces(config: Config, data: &[u8], piece: usize) -> Vec<(u64, Vec<u8>)> {
    let mut chunker = Chunker::new(config).unwrap();
    let mut out = Vec::new();
    for part in data.chunks(piece) {
        chunker.feed(part);
        while let Some(c) = chunker.next_chunk() {
            out.push(c);
        }
    }
    out.extend(chunker.finish());
    out
}

#[test]
fn single_byte_per_source_read() {
    for config in rolling_configs(10, 20, 600, 10) {
        let source_data: Vec<u8> = {
            let mut seed: usize = 0xa3;
            (0..10000)
                .map(|v| {
                    seed ^= seed.wrapping_mul(4);
                    (seed ^ v) as u8
                })
                .collect()
        };
        let expected: Vec<u64> = chunk_all(config, &source_data)
            .unwrap()
            .into_iter()
            .map(|(offset, _)| offset)
            .collect();
        let offsets: Vec<u64> = chunk_with_pieces(config, &source_data, 1)
            .into_iter()
            .map(|(offset, _)| offset)
            .collect();
        assert_eq!(expected, offsets);
    }
}

#[test]
fn zero_data() {
    for config in rolling_configs(5, 3, 640, 5) {
        let expected_chunk_offsets: Vec<u64> = vec![];
        let chunks = chunk_all(config, &[]).unwrap();
        for (_, chunk) in &chunks {
            assert_eq!(chunk.len(), 0);
        }
        let offsets: Vec<u64> = chunks.iter().map(|(o, _)| *o).collect();
        assert_eq!(offsets, expected_chunk_offsets);
    }
}

#[test]
fn source_smaller_than_hash_window() {
    for config in rolling_configs(5, 0, 40, 10) {
        let src = [0x1f, 0x55, 0x39, 0x5e, 0xfa];
        let chunks = chunk_all(config, &src).unwrap();
        for (_, chunk) in &chunks {
            assert_eq!(chunk, &vec![0x1f, 0x55, 0x39, 0x5e, 0xfa]);
        }
        let offsets: Vec<u64> = chunks.iter().map(|(o, _)| *o).collect();
        assert_eq!(offsets, vec![0]);
    }
}

#[test]
fn source_smaller_than_min_chunk() {
    for config in rolling_configs(5, 10, 40, 5) {
        let src = [0x1f, 0x55, 0x39, 0x5e, 0xfa];
        let chunks = chunk_all(config, &src).unwrap();
        for (_, chunk) in &chunks {
            assert_eq!(chunk, &vec![0x1f, 0x55, 0x39, 0x5e, 0xfa]);
        }
        let offsets: Vec<u64> = chunks.iter().map(|(o, _)| *o).collect();
        assert_eq!(offsets, vec![0]);
    }
}

#[test]
fn concatenated_chunks_give_the_source() {
    let data = xor_source(0xa3, 10000);
    let mut configs = rolling_configs(5, 3, 640, 5);
    configs.push(Config::FixedSize(333));
    for config in configs {
        let chunks = chunk_all(config, &data).unwrap();
        let joined: Vec<u8> = chunks.iter().flat_map(|(_, c)| c.iter().copied()).collect();
        assert_eq!(joined, data);
    }
}

#[test]
fn offsets_start_at_zero_and_increase() {
    let data = lcg_source(50000);
    for config in rolling_configs(6, 16, 1024, 16) {
        let chunks = chunk_all(config, &data).unwrap();
        assert!(chunks.len() > 1);
        assert_eq!(chunks[0].0, 0);
        for w in chunks.windows(2) {
            assert!(w[0].0 < w[1].0);
            assert_eq!(w[0].0 + w[0].1.len() as u64, w[1].0);
        }
    }
}

#[test]
fn read_size_does_not_change_chunks() {
    let data = lcg_source(20000);
    let mut configs = rolling_configs(6, 10, 700, 12);
    configs.push(Config::FixedSize(97));
    for config in configs {
        let whole = chunk_all(config, &data).unwrap();
        for piece in [1usize, 7, 64, 1000, 30000] {
            assert_eq!(chunk_with_pieces(config, &data, piece), whole);
        }
    }
}

#[test]
fn window_minus_one_bytes_is_one_chunk() {
    for config in rolling_configs(4, 0, 100, 16) {
        let data = lcg_source(15);
        let chunks = chunk_all(config, &data).unwrap();
        assert_eq!(chunks, vec![(0, data.clone())]);
    }
}

#[test]
fn max_size_source_is_one_chunk() {
    for config in rolling_configs(4, 8, 64, 8) {
        let data = vec![0u8; 64];
        let chunks = chunk_all(config, &data).unwrap();
        assert_eq!(chunks, vec![(0, data.clone())]);
    }
    let data = lcg_source(50);
    assert_eq!(chunk_all(Config::FixedSize(50), &data).unwrap(), vec![(0, data.clone())]);
}

#[test]
fn fixed_size_seven_over_twenty() {
    let data: Vec<u8> = (0..20u8).collect();
    let chunks = chunk_all(Config::FixedSize(7), &data).unwrap();
    let lens: Vec<usize> = chunks.iter().map(|(_, c)| c.len()).collect();
    assert_eq!(lens, vec![7, 7, 6]);
    let offsets: Vec<u64> = chunks.iter().map(|(o, _)| *o).collect();
    assert_eq!(offsets, vec![0, 7, 14]);
}

#[test]
fn forced_cut_at_max_chunk_size() {
    let data = vec![0u8; 100];
    for config in rolling_configs(4, 8, 30, 8) {
        let lens: Vec<usize> = chunk_all(config, &data).unwrap().iter().map(|(_, c)| c.len()).collect();
        assert_eq!(lens, vec![30, 30, 30, 10]);
    }
}

#[test]
fn window_larger_than_max_still_cuts() {
    let data = lcg_source(100);
    for config in rolling_configs(4, 0, 25, 40) {
        let lens: Vec<usize> = chunk_all(config, &data).unwrap().iter().map(|(_, c)| c.len()).collect();
        assert_eq!(lens, vec![25, 25, 25, 25]);
    }
}

#[test]
fn flipped_byte_changes_at_most_two_chunks() {
    let data = lcg_source(1024 * 1024);
    let mut flipped = data.clone();
    let k = 500_000;
    flipped[k] ^= 0x5a;
    for config in rolling_configs(10, 64, 8192, 32) {
        let before = chunk_all(config, &data).unwrap();
        let after = chunk_all(config, &flipped).unwrap();
        let changed = after.iter().filter(|c| !before.contains(c)).count();
        assert!(changed >= 1);
        assert!(changed <= 2, "{} chunks changed", changed);
    }
}

#[test]
fn min_above_max_is_a_config_error() {
    for config in rolling_configs(5, 50, 40, 5) {
        assert!(matches!(Chunker::new(config), Err(Error::Config(_))));
        assert!(matches!(chunk_all(config, &[1, 2, 3]), Err(Error::Config(_))));
    }
    assert!(matches!(Chunker::new(Config::FixedSize(0)), Err(Error::Config(_))));
    for config in rolling_configs(0, 1, 40, 5) {
        assert!(matches!(Chunker::new(config), Err(Error::Config(_))));
    }
    for config in rolling_configs(32, 1, 40, 5) {
        assert!(matches!(Chunker::new(config), Err(Error::Config(_))));
    }
    for config in rolling_configs(5, 1, 40, 0) {
        assert!(matches!(Chunker::new(config), Err(Error::Config(_))));
    }
}

#[test]
fn chunker_holds_back_undecided_chunk() {
    let mut chunker = Chunker::new(Config::FixedSize(4)).unwrap();
    chunker.feed(&[1, 2, 3]);
    assert_eq!(chunker.next_chunk(), None);
    chunker.feed(&[4, 5]);
    assert_eq!(chunker.next_chunk(), Some((0, vec![1, 2, 3, 4])));
    assert_eq!(chunker.next_chunk(), None);
    assert_eq!(chunker.finish(), vec![(4, vec![5])]);
}

#[test]
fn filter_bits_from_average_size() {
    assert_eq!(FilterBits::from_size(64 * 1024), FilterBits(16));
    assert_eq!(FilterBits::from_size(100), FilterBits(6));
    assert_eq!(FilterBits::from_size(3), FilterBits(1));
    assert_eq!(FilterBits::from_size(1), FilterBits(0));
    assert_eq!(FilterBits::from_size(1usize << 40), FilterBits(31));
}
