use sha3::Digest;
use sorted_checksums::digest::DIGEST_LEN;
use sorted_checksums::hasher::DigestCollector;
use sorted_checksums::pipeline::{collect_digests, sorted_checksums, sorted_digests, BATCH_SIZE, RUN_SIZE};

fn lines(v: &[&str]) -> Vec<String> {
    v.iter().map(|s| s.to_string()).collect()
}

fn digest(s: &str) -> Vec<u8> {
    sha3::Sha3_512::digest(s.as_bytes()).to_vec()
}

#[test]
fn scenario_duplicates_kept_and_sorted() {
    let out = sorted_digests(&lines(&["a", "b", "a"]), None, BATCH_SIZE, RUN_SIZE);
    assert_eq!(out.len(), 3);
    assert_eq!(out.iter().filter(|d| **d == digest("a")).count(), 2);
    assert_eq!(out.iter().filter(|d| **d == digest("b")).count(), 1);
    assert!(out.windows(2).all(|w| w[0] <= w[1]));
}

#[test]
fn scenario_rule_keeps_matching_line_only() {
    let input = lines(&["10.0.0.1 foo", "10.0.0.2 bar"]);
    let text = sorted_checksums(&input, Some("10.0.0.1 "), BATCH_SIZE, RUN_SIZE);
    let expected = format!("{}\n", hex::encode(digest("foo")));
    assert_eq!(String::from_utf8(text).unwrap(), expected);
}

#[test]
fn scenario_empty_input() {
    let text = sorted_checksums(&[], None, BATCH_SIZE, RUN_SIZE);
    assert!(text.is_empty());
    assert!(sorted_digests(&[], Some("x"), 1, 1).is_empty());
}

#[test]
fn scenario_more_digests_than_run_size() {
    let input = lines(&["one", "two", "three", "four", "five"]);
    let out = sorted_digests(&input, None, 2, 2);
    let mut expected: Vec<Vec<u8>> = ["one", "two", "three", "four", "five"].iter().map(|s| digest(s)).collect();
    expected.sort();
    assert_eq!(out, expected);
}

#[test]
fn count_conservation() {
    let input = lines(&["p a", "", "p b", "q c", "  ", "p", "pp d"]);
    let out = sorted_digests(&input, Some("p"), 3, 2);
    assert_eq!(out.len(), 4);
    let out = sorted_digests(&input, None, 3, 2);
    assert_eq!(out.len(), 5);
}

#[test]
fn result_independent_of_batch_and_run_size() {
    let input: Vec<String> = (0..50).map(|i| format!("line {}", i % 17)).collect();
    let reference = sorted_digests(&input, None, 1000, 1000);
    for (b, r) in [(1, 1), (3, 7), (50, 2), (7, 50)] {
        assert_eq!(sorted_digests(&input, None, b, r), reference);
    }
}

#[test]
fn output_lines_decode_to_digests() {
    let input = lines(&["x", "y", "z", "x"]);
    let text = String::from_utf8(sorted_checksums(&input, None, 2, 3)).unwrap();
    let mut count = 0;
    for line in text.lines() {
        assert_eq!(line.len(), 128);
        assert_eq!(hex::decode(line).unwrap().len(), DIGEST_LEN);
        count += 1;
    }
    assert_eq!(count, 4);
    let sorted: Vec<&str> = text.lines().collect();
    assert!(sorted.windows(2).all(|w| w[0] <= w[1]));
}

#[test]
fn collector_counts_processed_and_skipped() {
    let mut c = DigestCollector::new(Some("k "));
    c.add_batch(&lines(&["k a", "x b", ""]));
    c.add_batch(&lines(&["k c"]));
    assert_eq!(c.processed(), 4);
    assert_eq!(c.skipped(), 2);
    let ds = c.into_digests();
    assert_eq!(ds, vec![digest("a"), digest("c")]);
    let c = collect_digests(&lines(&["a", " ", "b"]), None, 2);
    assert_eq!(c.processed(), 3);
    assert_eq!(c.skipped(), 1);
}
