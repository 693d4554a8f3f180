use bitar::diff::{
    difference, intersection, merge_tables, print_info, push_decimal, selection_string, union,
    ChunkerResult,
};

fn sample_a() -> ChunkerResult {
    let mut r = ChunkerResult::new();
    r.add_chunk(0, b"x", 10, Some(4));
    r.add_chunk(10, b"y", 20, None);
    r.add_chunk(30, b"x", 10, None);
    r
}

fn sample_b() -> ChunkerResult {
    let mut r = ChunkerResult::new();
    r.add_chunk(0, b"y", 20, Some(5));
    r.add_chunk(20, b"z", 30, Some(7));
    r
}

#[test]
fn decimal_text() {
    let mut s = String::from("n=");
    push_decimal(&mut s, 0);
    push_decimal(&mut s, 1234567890);
    assert_eq!(s, "n=01234567890");
}

#[test]
fn chunk_statistics_accumulate() {
    let a = sample_a();
    assert_eq!(a.total_chunks, 3);
    assert_eq!(a.total_size, 40);
    assert_eq!(a.total_compressed_size, 8);
    assert_eq!(a.descriptors.hashes, vec![b"x".to_vec(), b"y".to_vec()]);
    assert_eq!(a.descriptors.usages[0].occurrences, vec![0, 30]);
    assert_eq!(a.descriptors.usages[0].compressed_size, Some(4));
    assert_eq!(a.descriptors.usages[1].compressed_size, None);
}

#[test]
fn selection_summary_text() {
    let a = sample_a();
    let sel = vec![b"x".to_vec(), b"y".to_vec()];
    assert_eq!(
        selection_string(&sel, &a.descriptors),
        "2 (size: 40, compressed size: 28)"
    );
    assert_eq!(selection_string(&[], &a.descriptors), "0 (size: 0, compressed size: 0)");
}

#[test]
fn chunk_sets_of_two_files() {
    let a = sample_a();
    let b = sample_b();
    assert_eq!(intersection(&a.descriptors, &b.descriptors), vec![b"y".to_vec()]);
    assert_eq!(difference(&a.descriptors, &b.descriptors), vec![b"x".to_vec()]);
    assert_eq!(difference(&b.descriptors, &a.descriptors), vec![b"z".to_vec()]);
    assert_eq!(
        union(&a.descriptors, &b.descriptors),
        vec![b"x".to_vec(), b"y".to_vec(), b"z".to_vec()]
    );
}

#[test]
fn merged_usage_of_two_files() {
    let a = sample_a();
    let b = sample_b();
    let m = merge_tables(&a.descriptors, &b.descriptors);
    assert_eq!(m.hashes, vec![b"x".to_vec(), b"y".to_vec(), b"z".to_vec()]);
    assert_eq!(m.usages[0].occurrences, vec![0, 30]);
    assert_eq!(m.usages[1].occurrences, vec![10, 0]);
    assert_eq!(m.usages[2].occurrences, vec![20]);
    assert_eq!(m.usages[2].compressed_size, Some(7));
    let all = union(&a.descriptors, &b.descriptors);
    assert_eq!(selection_string(&all, &m), "3 (size: 90, compressed size: 55)");
}

#[test]
fn file_report_lines() {
    let a = sample_a();
    let b = sample_b();
    let diff = difference(&a.descriptors, &b.descriptors);
    let lines = print_info("a.img", &a, &diff);
    assert_eq!(
        lines,
        vec![
            "a.img:".to_string(),
            "  Chunks: 3 (unique 2)".to_string(),
            "  Average chunk size: 15".to_string(),
            "  Total size: 40 (compressed size: 8)".to_string(),
            "  Chunks not in other: 1 (size: 20, compressed size: 8)".to_string(),
        ]
    );
}
