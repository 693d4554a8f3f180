use bitar::rolling::{buzhash_table, BuzHash, RollSum};

fn sample(len: usize) -> Vec<u8> {
    let mut x: u32 = 0x1234_5678;
    (0..len)
        .map(|_| {
            x ^= x << 13;
            x ^= x >> 17;
            x ^= x << 5;
            x as u8
        })
        .collect()
}

#[test]
fn rollsum_of_small_window() {
    let h = RollSum::new(&[1, 2, 3]);
    assert_eq!(h.digest(), (10 << 16) | 6);
}

#[test]
fn rollsum_rolling_matches_fresh_window() {
    let data = sample(500);
    let w = 16;
    let mut h = RollSum::new(&data[..w]);
    for i in w..data.len() {
        h.roll(data[i - w], data[i]);
        assert_eq!(h.digest(), RollSum::new(&data[i + 1 - w..i + 1]).digest());
    }
}

#[test]
fn rollsum_accumulators_wrap() {
    let data = vec![0xffu8; 600];
    let h = RollSum::new(&data);
    let s1 = (600u64 * 255) % 65536;
    let s2 = ((600u64 * 601 / 2) * 255) % 65536;
    assert_eq!(h.digest() as u64, (s2 << 16) | s1);
}

#[test]
fn buzhash_of_small_window() {
    let t = |b: u8| buzhash_table(b);
    let h = BuzHash::new(&[7, 9]);
    assert_eq!(h.digest(), t(7).rotate_left(1) ^ t(9));
}

#[test]
fn buzhash_rolling_matches_fresh_window() {
    for w in [1usize, 5, 20, 32, 33, 64] {
        let data = sample(300);
        let mut h = BuzHash::new(&data[..w]);
        for i in w..data.len() {
            h.roll(data[i - w], data[i]);
            assert_eq!(h.digest(), BuzHash::new(&data[i + 1 - w..i + 1]).digest());
        }
    }
}

#[test]
fn buzhash_table_spreads_bytes() {
    let mut values: Vec<u32> = (0..=255u8).map(buzhash_table).collect();
    values.sort();
    values.dedup();
    assert_eq!(values.len(), 256);
}
