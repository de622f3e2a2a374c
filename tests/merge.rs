use sorted_checksums::merge::{merge_runs, Merger};
use sorted_checksums::runs::{build_runs, encode_run};
use sorted_checksums::sink::OutputBuffer;

fn sorted_concat(runs: &[Vec<Vec<u8>>]) -> Vec<Vec<u8>> {
    let mut all: Vec<Vec<u8>> = runs.iter().flatten().cloned().collect();
    all.sort();
    all
}

#[test]
fn merge_of_synthetic_runs_is_sorted_concatenation() {
    let runs = vec![
        vec![vec![1], vec![4], vec![9]],
        vec![],
        vec![vec![0], vec![4], vec![4, 0], vec![200]],
        vec![vec![3]],
    ];
    let merged = merge_runs(&runs);
    assert_eq!(merged, sorted_concat(&runs));
    assert_eq!(merged.len(), 8);
}

#[test]
fn merge_of_no_runs_is_empty() {
    assert_eq!(merge_runs(&vec![]), Vec::<Vec<u8>>::new());
    assert_eq!(merge_runs(&vec![vec![], vec![]]), Vec::<Vec<u8>>::new());
}

#[test]
fn merge_keeps_duplicates() {
    let runs = vec![vec![vec![5], vec![5]], vec![vec![5]]];
    assert_eq!(merge_runs(&runs), vec![vec![5], vec![5], vec![5]]);
}

#[test]
fn merger_breaks_ties_by_run_index() {
    let mut m = Merger::new(3);
    assert_eq!(m.run_count(), 3);
    m.offer(2, vec![7]);
    m.offer(0, vec![7]);
    m.offer(1, vec![9]);
    assert_eq!(m.pop_min(), Some((vec![7], 0)));
    assert_eq!(m.pop_min(), Some((vec![7], 2)));
    m.offer(0, vec![1]);
    assert_eq!(m.pop_min(), Some((vec![1], 0)));
    assert_eq!(m.pop_min(), Some((vec![9], 1)));
    assert_eq!(m.pop_min(), None);
}

#[test]
fn runs_are_sorted_chunks() {
    let digests = vec![vec![5], vec![3], vec![9], vec![1], vec![2]];
    let runs = build_runs(digests, 2);
    assert_eq!(runs, vec![vec![vec![3], vec![5]], vec![vec![1], vec![9]], vec![vec![2]]]);
}

#[test]
fn runs_of_nothing() {
    assert_eq!(build_runs(vec![], 3), Vec::<Vec<Vec<u8>>>::new());
    assert_eq!(build_runs(vec![vec![1], vec![0]], 2), vec![vec![vec![0], vec![1]]]);
}

#[test]
fn run_text_has_one_line_per_digest() {
    let text = encode_run(&[vec![0xab, 0x01], vec![0x00, 0xff]]);
    assert_eq!(text, b"ab01\n00ff\n".to_vec());
    assert_eq!(encode_run(&[]), Vec::<u8>::new());
}

#[test]
fn buffer_hands_out_text_at_threshold() {
    let mut buf = OutputBuffer::new(10);
    assert_eq!(buf.push_digest(&[0x01, 0x02]), None);
    assert_eq!(buf.push_digest(&[0xff, 0x00]), Some(b"0102\nff00\n".to_vec()));
    assert_eq!(buf.push_digest(&[0x0a]), None);
    assert_eq!(buf.finish(), Some(b"0a\n".to_vec()));
}

#[test]
fn empty_buffer_finishes_with_nothing() {
    let buf = OutputBuffer::new(10);
    assert_eq!(buf.finish(), None);
}

#[test]
fn merge_of_many_runs() {
    let mut runs: Vec<Vec<Vec<u8>>> = Vec::new();
    for r in 0..13u8 {
        let mut run: Vec<Vec<u8>> = (0..(r % 5) + 1).map(|i| vec![(i * 37 + r * 11) % 251, r]).collect();
        run.sort();
        runs.push(run);
    }
    let merged = merge_runs(&runs);
    assert_eq!(merged, sorted_concat(&runs));
}

#[test]
fn merger_pops_in_order_after_many_offers() {
    let mut m = Merger::new(8);
    let keys = [5u8, 3, 9, 3, 0, 7, 1, 8];
    for (i, k) in keys.iter().enumerate() {
        m.offer(i, vec![*k]);
    }
    let mut out = Vec::new();
    while let Some((d, i)) = m.pop_min() {
        out.push((d[0], i));
    }
    assert_eq!(out, vec![(0, 4), (1, 6), (3, 1), (3, 3), (5, 0), (7, 5), (8, 7), (9, 2)]);
}
