//! The parallel hasher: batches of raw lines become the digests of the lines
//! that survive normalization.

use rayon::iter::{IntoParallelRefIterator, ParallelIterator};
use vstd::prelude::*;
use vstd::utf8::encode_utf8;
use crate::digest::{sha3_512, sha3_512_of, DIGEST_LEN};
use crate::normalize::{normalize, normalize_line, rule_view, trim};
use crate::order::views;

verus! {

/// The text of each line.
pub open spec fn line_views(lines: Seq<String>) -> Seq<Seq<char>> {
    lines.map_values(|l: String| l@)
}

/// The digest of the record that a line gives, or `None` when it is skipped.
pub open spec fn line_digest(line: Seq<char>, rule: Option<Seq<char>>) -> Option<Seq<u8>> {
    match normalize(line, rule) {
        Some(r) => Some(sha3_512_of(encode_utf8(r))),
        None => None,
    }
}

/// The digests of the lines that survive, in the lines' order.
pub open spec fn batch_digests(lines: Seq<Seq<char>>, rule: Option<Seq<char>>) -> Seq<Seq<u8>>
    decreases lines.len(),
{
    if lines.len() == 0 {
        Seq::empty()
    } else {
        let prev = batch_digests(lines.drop_last(), rule);
        match line_digest(lines.last(), rule) {
            Some(d) => prev.push(d),
            None => prev,
        }
    }
}

/// A line survives when it holds more than white space and, under a rule,
/// starts with the rule's prefix.
pub open spec fn kept(line: Seq<char>, rule: Option<Seq<char>>) -> bool {
    &&& trim(line).len() > 0
    &&& rule matches Some(p) ==> p.is_prefix_of(line)
}

/// How many of the lines survive.
pub open spec fn survivors(lines: Seq<Seq<char>>, rule: Option<Seq<char>>) -> nat
    decreases lines.len(),
{
    if lines.len() == 0 {
        0
    } else {
        survivors(lines.drop_last(), rule) + if kept(lines.last(), rule) {
            1nat
        } else {
            0nat
        }
    }
}

/// Every entry is a digest: `DIGEST_LEN` bytes.
pub open spec fn all_digest_len(s: Seq<Seq<u8>>) -> bool {
    forall|i: int| 0 <= i < s.len() ==> (#[trigger] s[i]).len() == DIGEST_LEN
}

/// The digest of the record that `line` gives under `rule`, or `None` when the
/// line is skipped.
pub fn digest_line(line: &str, rule: Option<&str>) -> (r: Option<Vec<u8>>)
    ensures
        r is Some <==> normalize(line@, rule_view(rule)) is Some,
        r matches Some(d) ==> line_digest(line@, rule_view(rule)) == Some(d@) && d@.len()
            == DIGEST_LEN,
{
    match normalize_line(line, rule) {
        Some(record) => Some(sha3_512(record.as_bytes())),
        None => None,
    }
}

/// Relies on rayon's `par_iter`, `filter_map` and `collect`: each line is
/// handed to `digest_line` on the worker pool, and the results that are
/// `Some` are collected in the lines' order.
#[verifier::external_body]
fn digest_lines_parallel(lines: &[String], rule: Option<&str>) -> (r: Vec<Vec<u8>>)
    ensures
        views(r@) == batch_digests(line_views(lines@), rule_view(rule)),
        all_digest_len(views(r@)),
{
    lines.par_iter().filter_map(|line| digest_line(line, rule)).collect()
}

pub proof fn lemma_batch_digests_append(a: Seq<Seq<char>>, b: Seq<Seq<char>>, rule: Option<Seq<char>>)
    ensures
        batch_digests(a + b, rule) == batch_digests(a, rule) + batch_digests(b, rule),
        survivors(a + b, rule) == survivors(a, rule) + survivors(b, rule),
    decreases b.len(),
{
    if b.len() == 0 {
        assert(a + b =~= a);
        assert(batch_digests(a, rule) + batch_digests(b, rule) =~= batch_digests(a, rule));
    } else {
        lemma_batch_digests_append(a, b.drop_last(), rule);
        assert((a + b).drop_last() =~= a + b.drop_last());
        assert((a + b).last() == b.last());
        let x = batch_digests(a, rule);
        let y = batch_digests(b.drop_last(), rule);
        match line_digest(b.last(), rule) {
            Some(d) => {
                assert((x + y).push(d) =~= x + y.push(d));
            },
            None => {},
        }
    }
}

/// Count conservation: as many digests as lines survive.
pub proof fn lemma_batch_digests_len(lines: Seq<Seq<char>>, rule: Option<Seq<char>>)
    ensures
        batch_digests(lines, rule).len() == survivors(lines, rule),
        survivors(lines, rule) <= lines.len(),
    decreases lines.len(),
{
    if lines.len() > 0 {
        lemma_batch_digests_len(lines.drop_last(), rule);
    }
}

/// The digests of batch after batch of lines, with counts of the lines that
/// were processed and of those that were skipped.
pub struct DigestCollector {
    rule: Option<String>,
    digests: Vec<Vec<u8>>,
    processed: usize,
    skipped: usize,
    seen: Ghost<Seq<Seq<char>>>,
}

impl DigestCollector {
    /// The rule that every line is normalized under.
    pub closed spec fn rule(&self) -> Option<Seq<char>> {
        match self.rule {
            Some(p) => Some(p@),
            None => None,
        }
    }

    /// Every line handed in so far, in order.
    pub closed spec fn seen(&self) -> Seq<Seq<char>> {
        self.seen@
    }

    /// The digests collected so far.
    pub closed spec fn digests_view(&self) -> Seq<Seq<u8>> {
        views(self.digests@)
    }

    pub closed spec fn processed_count(&self) -> nat {
        self.processed as nat
    }

    pub closed spec fn skipped_count(&self) -> nat {
        self.skipped as nat
    }

    pub closed spec fn wf(&self) -> bool {
        &&& views(self.digests@) == batch_digests(self.seen@, self.rule())
        &&& all_digest_len(views(self.digests@))
        &&& self.processed == self.seen@.len()
        &&& self.skipped + self.digests@.len() == self.seen@.len()
    }

    /// An empty collector whose lines are normalized under `rule`.
    pub fn new(rule: Option<&str>) -> (r: DigestCollector)
        ensures
            r.wf(),
            r.rule() == rule_view(rule),
            r.seen() == Seq::<Seq<char>>::empty(),
    {
        let rule = match rule {
            Some(p) => Some(p.to_owned()),
            None => None,
        };
        let r = DigestCollector {
            rule,
            digests: Vec::new(),
            processed: 0,
            skipped: 0,
            seen: Ghost(Seq::empty()),
        };
        assert(views(r.digests@) =~= Seq::<Seq<u8>>::empty());
        r
    }

    /// Digests one batch of lines on the worker pool and keeps the results.
    pub fn add_batch(&mut self, lines: &[String])
        requires
            old(self).wf(),
            old(self).seen().len() + lines@.len() <= usize::MAX,
        ensures
            final(self).wf(),
            final(self).rule() == old(self).rule(),
            final(self).seen() == old(self).seen() + line_views(lines@),
    {
        let rule: Option<&str> = match &self.rule {
            Some(p) => Some(p.as_str()),
            None => None,
        };
        let mut batch = digest_lines_parallel(lines, rule);
        proof {
            lemma_batch_digests_append(self.seen@, line_views(lines@), self.rule());
            lemma_batch_digests_len(line_views(lines@), self.rule());
            lemma_batch_digests_len(self.seen@, self.rule());
        }
        let ghost before = self.digests@;
        let ghost added = batch@;
        let n_kept = batch.len();
        self.digests.append(&mut batch);
        proof {
            assert(views(before + added) =~= views(before) + views(added));
            assert(self.digests@ == before + added);
        }
        self.processed = self.processed + lines.len();
        self.skipped = self.skipped + (lines.len() - n_kept);
        self.seen = Ghost(self.seen@ + line_views(lines@));
    }

    /// How many lines were handed in.
    pub fn processed(&self) -> (r: usize)
        requires
            self.wf(),
        ensures
            r == self.seen().len(),
    {
        self.processed
    }

    /// How many of them were skipped.
    pub fn skipped(&self) -> (r: usize)
        requires
            self.wf(),
        ensures
            r == self.seen().len() - survivors(self.seen(), self.rule()),
    {
        proof {
            lemma_batch_digests_len(self.seen@, self.rule());
        }
        self.skipped
    }

    /// The digests collected, in the order of the lines they came from.
    pub fn into_digests(self) -> (r: Vec<Vec<u8>>)
        requires
            self.wf(),
        ensures
            views(r@) == batch_digests(self.seen(), self.rule()),
            all_digest_len(views(r@)),
    {
        self.digests
    }
}

} // verus!
