//! The whole pipeline on lines held in memory: batches are digested on the
//! worker pool, the digests are cut into sorted runs, and the runs are merged.

use vstd::prelude::*;
use crate::digest::{hex_decode, hex_encode, lemma_hex_round_trip, DIGEST_LEN};
use crate::hasher::{
    all_digest_len, batch_digests, lemma_batch_digests_len, line_views, survivors, DigestCollector,
};
use crate::merge::merge_runs;
use crate::normalize::rule_view;
use crate::order::{ascending, is_sorted, views};
use crate::runs::{build_runs, encode_run, run_text};

verus! {

/// The default number of lines in a batch.
pub const BATCH_SIZE: usize = 10000;

/// The default largest number of entries in a run.
pub const RUN_SIZE: usize = 1000000;

/// Digests `lines` under `rule`, `batch_size` lines at a time.
pub fn collect_digests(lines: &[String], rule: Option<&str>, batch_size: usize) -> (r: DigestCollector)
    requires
        batch_size > 0,
    ensures
        r.wf(),
        r.rule() == rule_view(rule),
        r.seen() == line_views(lines@),
{
    let mut collector = DigestCollector::new(rule);
    let n = lines.len();
    let mut start: usize = 0;
    while start < n
        invariant
            start <= n,
            n == lines@.len(),
            batch_size > 0,
            collector.wf(),
            collector.rule() == rule_view(rule),
            collector.seen() == line_views(lines@.take(start as int)),
        decreases n - start,
    {
        let end = if n - start > batch_size {
            start + batch_size
        } else {
            n
        };
        let batch = &lines[start..end];
        proof {
            assert(line_views(lines@.take(start as int)) + line_views(batch@) =~= line_views(
                lines@.take(end as int),
            ));
        }
        collector.add_batch(batch);
        start = end;
    }
    assert(lines@.take(n as int) =~= lines@);
    collector
}

/// The digests of every line of `lines` that survives `rule`, in ascending
/// order: digested `batch_size` lines at a time, sorted in runs of at most
/// `run_size` entries, and merged. The result is the single-pass reference,
/// every surviving record hashed once and sorted, whatever the two sizes.
pub fn sorted_digests(lines: &[String], rule: Option<&str>, batch_size: usize, run_size: usize) -> (r: Vec<
    Vec<u8>,
>)
    requires
        batch_size > 0,
        run_size > 0,
    ensures
        views(r@) == ascending(batch_digests(line_views(lines@), rule_view(rule))),
        r@.len() == survivors(line_views(lines@), rule_view(rule)),
        is_sorted(views(r@)),
        all_digest_len(views(r@)),
{
    let collector = collect_digests(lines, rule, batch_size);
    let digests = collector.into_digests();
    let ghost all = views(digests@);
    let runs = build_runs(digests, run_size);
    let merged = merge_runs(&runs);
    proof {
        crate::order::lemma_concat_ms_flatten(crate::order::runs_view(runs@));
        crate::order::lemma_ascending_unique(all, views(merged@));
        lemma_batch_digests_len(line_views(lines@), rule_view(rule));
        assert(views(merged@).to_multiset().len() == views(merged@).len()) by {
            broadcast use vstd::seq_lib::group_to_multiset_ensures;
        }
        assert(all.to_multiset().len() == all.len()) by {
            broadcast use vstd::seq_lib::group_to_multiset_ensures;
        }
        assert forall|i: int| 0 <= i < views(merged@).len() implies (#[trigger] views(merged@)[i]).len()
            == DIGEST_LEN by {
            broadcast use vstd::seq_lib::group_to_multiset_ensures;

            assert(views(merged@).contains(views(merged@)[i]));
            assert(views(merged@).to_multiset().count(views(merged@)[i]) > 0);
            assert(all.contains(views(merged@)[i]));
        }
    }
    merged
}

/// The text of the output: the text form of each sorted digest on a line of its own.
pub fn sorted_checksums(lines: &[String], rule: Option<&str>, batch_size: usize, run_size: usize) -> (r:
    Vec<u8>)
    requires
        batch_size > 0,
        run_size > 0,
    ensures
        r@ == run_text(ascending(batch_digests(line_views(lines@), rule_view(rule)))),
        all_digest_len(ascending(batch_digests(line_views(lines@), rule_view(rule)))),
{
    let digests = sorted_digests(lines, rule, batch_size, run_size);
    encode_run(&digests)
}

/// Each line of the output decodes from hexadecimal to exactly the digest it
/// came from, `DIGEST_LEN` bytes.
pub proof fn lemma_output_lines_decode(digests: Seq<Seq<u8>>)
    requires
        all_digest_len(digests),
    ensures
        forall|i: int|
            0 <= i < digests.len() ==> (hex_decode(hex_encode(#[trigger] digests[i])) matches Some(d)
                && d == digests[i] && d.len() == DIGEST_LEN),
{
    assert forall|i: int| 0 <= i < digests.len() implies (hex_decode(hex_encode(#[trigger] digests[i])) matches Some(
        d,
    ) && d == digests[i] && d.len() == DIGEST_LEN) by {
        lemma_hex_round_trip(digests[i]);
    }
}

} // verus!
