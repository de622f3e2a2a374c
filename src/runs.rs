//! The run builder: the digests are cut into consecutive chunks of at most
//! `run_size` entries, and each chunk is sorted on the worker pool.

use rayon::slice::ParallelSliceMut;
use vstd::multiset::Multiset;
use vstd::prelude::*;
use vstd::seq_lib::lemma_multiset_commutative;
use crate::digest::digest_to_hex;
use crate::digest::hex_encode;
use crate::order::{concat_ms, is_sorted, runs_view, views};

verus! {

broadcast use vstd::seq_lib::group_to_multiset_ensures;

/// How many runs `n` entries make, at most `run_size` in each.
pub open spec fn run_count(n: nat, run_size: nat) -> nat
    recommends
        run_size > 0,
{
    if n % run_size == 0 {
        n / run_size
    } else {
        n / run_size + 1
    }
}

/// Where the `k`th chunk of `n` entries ends.
pub open spec fn chunk_end(n: nat, run_size: nat, k: nat) -> nat {
    if k * run_size <= n {
        k * run_size
    } else {
        n
    }
}

/// The `k`th chunk of `s`: the entries from `k * run_size` on, at most `run_size` of them.
pub open spec fn chunk(s: Seq<Seq<u8>>, run_size: nat, k: nat) -> Seq<Seq<u8>> {
    s.subrange(chunk_end(s.len(), run_size, k) as int, chunk_end(s.len(), run_size, k + 1) as int)
}

/// Relies on rayon's `par_sort`: the entries reordered in place into the
/// order of `Ord` on `Vec<u8>`, which is lexicographic.
#[verifier::external_body]
fn sort_parallel(run: &mut Vec<Vec<u8>>)
    ensures
        views(final(run)@).to_multiset() == views(old(run)@).to_multiset(),
        is_sorted(views(final(run)@)),
{
    run.par_sort();
}

proof fn lemma_run_count(n: nat, r: nat)
    requires
        r > 0,
    ensures
        run_count(n, r) * r >= n,
        run_count(n, r) > 0 ==> (run_count(n, r) - 1) * r < n,
        n == 0 <==> run_count(n, r) == 0,
        run_count(n, r) <= n,
{
    assert(n == (n / r) * r + n % r) by (nonlinear_arith)
        requires r > 0;
    assert((n / r) * r <= n) by (nonlinear_arith)
        requires r > 0;
    assert(n / r <= n) by (nonlinear_arith)
        requires r > 0;
    if n % r != 0 {
        assert((n / r + 1) * r == (n / r) * r + r) by (nonlinear_arith);
        assert(n / r < n) by (nonlinear_arith)
            requires r > 0, n % r != 0, n == (n / r) * r + n % r;
    } else if n > 0 {
        assert(n / r > 0) by (nonlinear_arith)
            requires r > 0, n > 0, n == (n / r) * r + n % r, n % r == 0;
        assert((n / r - 1) * r == (n / r) * r - r) by (nonlinear_arith);
    }
}

proof fn lemma_chunk_end_mono(n: nat, r: nat, j: nat, k: nat)
    requires
        j <= k,
    ensures
        chunk_end(n, r, j) <= chunk_end(n, r, k),
        chunk_end(n, r, k) <= n,
{
    assert(j * r <= k * r) by (nonlinear_arith)
        requires j <= k;
}

/// The runs, each a sorted rearrangement of its chunk, hold together what
/// the chunks before `m` hold.
proof fn lemma_chunks_multiset(s: Seq<Seq<u8>>, r: nat, runs: Seq<Seq<Seq<u8>>>, m: nat)
    requires
        m <= runs.len(),
        forall|k: int|
            0 <= k < m ==> (#[trigger] runs[k]).to_multiset() == chunk(s, r, k as nat).to_multiset(),
    ensures
        concat_ms(runs.take(m as int)) == s.subrange(0, chunk_end(s.len(), r, m) as int).to_multiset(),
    decreases m,
{
    let n = s.len();
    if m == 0 {
        assert(runs.take(0) =~= Seq::<Seq<Seq<u8>>>::empty());
        assert(chunk_end(s.len(), r, 0) == 0);
        assert(s.subrange(0, 0) =~= Seq::<Seq<u8>>::empty());
        assert(Seq::<Seq<u8>>::empty().to_multiset() =~= Multiset::empty());
    } else {
        lemma_chunks_multiset(s, r, runs, (m - 1) as nat);
        lemma_chunk_end_mono(n, r, (m - 1) as nat, m);
        assert(runs.take(m as int).drop_last() =~= runs.take(m - 1));
        let a = s.subrange(0, chunk_end(n, r, (m - 1) as nat) as int);
        let b = chunk(s, r, (m - 1) as nat);
        assert(s.subrange(0, chunk_end(n, r, m) as int) =~= a + b);
        lemma_multiset_commutative(a, b);
        let t = runs.take(m as int);
        assert(t.last() == runs[m - 1]);
        assert(concat_ms(t) == concat_ms(t.drop_last()).add(t.last().to_multiset()));
    }
}

/// Cuts `digests` into consecutive chunks of `run_size` entries (the last one
/// may hold fewer) and sorts each chunk on the worker pool.
pub fn build_runs(digests: Vec<Vec<u8>>, run_size: usize) -> (r: Vec<Vec<Vec<u8>>>)
    requires
        run_size > 0,
    ensures
        r@.len() == run_count(digests@.len() as nat, run_size as nat),
        forall|k: int|
            0 <= k < r@.len() ==> {
                &&& is_sorted(#[trigger] views(r@[k]@))
                &&& views(r@[k]@).to_multiset() == chunk(views(digests@), run_size as nat, k as nat).to_multiset()
                &&& 0 < r@[k]@.len() <= run_size
            },
        concat_ms(runs_view(r@)) == views(digests@).to_multiset(),
{
    let ghost all = views(digests@);
    let ghost rs = run_size as nat;
    let n = digests.len();
    proof {
        lemma_run_count(n as nat, rs);
    }
    let n_runs: usize = if n % run_size == 0 {
        n / run_size
    } else {
        n / run_size + 1
    };
    proof {
        lemma_run_count(n as nat, rs);
    }
    let mut runs: Vec<Vec<Vec<u8>>> = Vec::new();
    let mut i: usize = 0;
    while i < n_runs
        invariant
            i <= n_runs,
            runs@.len() == i,
        decreases n_runs - i,
    {
        runs.push(Vec::new());
        i = i + 1;
    }
    let mut rest = digests;
    let mut k: usize = n_runs;
    while k > 0
        invariant
            k <= n_runs,
            n_runs == run_count(n as nat, rs),
            n == all.len(),
            rs == run_size,
            rs > 0,
            runs@.len() == n_runs,
            views(rest@) == all.subrange(0, chunk_end(n as nat, rs, k as nat) as int),
            forall|j: int|
                k <= j < n_runs ==> {
                    &&& is_sorted(#[trigger] views(runs@[j]@))
                    &&& views(runs@[j]@).to_multiset() == chunk(all, rs, j as nat).to_multiset()
                    &&& 0 < runs@[j]@.len() <= rs
                },
        decreases k,
    {
        k = k - 1;
        proof {
            lemma_run_count(n as nat, rs);
            lemma_chunk_end_mono(n as nat, rs, k as nat, (k + 1) as nat);
            let last = (n_runs - 1) as nat;
            assert(last * rs < n);
            assert(k * rs <= last * rs) by (nonlinear_arith)
                requires k <= last;
            assert((k + 1) * rs == k * rs + rs) by (nonlinear_arith);
            assert(chunk_end(n as nat, rs, k as nat) == k * rs);
        }
        let start = k * run_size;
        let ghost before = rest@;
        let ghost end = chunk_end(n as nat, rs, (k + 1) as nat);
        assert(views(before) == all.subrange(0, end as int));
        assert(views(before).len() == before.len());
        assert(end <= n);
        assert(before.len() == end);
        assert(start <= end);
        let mut run = rest.split_off(start);
        proof {
            assert(views(rest@) =~= views(before).subrange(0, start as int));
            assert(views(run@) =~= views(before).subrange(start as int, before.len() as int));
            assert(views(rest@) =~= all.subrange(0, chunk_end(n as nat, rs, k as nat) as int));
            assert(views(run@) =~= chunk(all, rs, k as nat));
        }
        proof {
            assert(views(run@).len() == end - start);
            assert(end <= start + rs);
        }
        sort_parallel(&mut run);
        proof {
            assert(views(run@).to_multiset().len() == views(run@).len());
        }
        runs.set(k, run);
    }
    proof {
        assert(runs@.len() == runs_view(runs@).len());
        lemma_chunks_multiset(all, rs, runs_view(runs@), n_runs as nat);
        assert(runs_view(runs@).take(n_runs as int) =~= runs_view(runs@));
        lemma_run_count(n as nat, rs);
        assert(all.subrange(0, n as int) =~= all);
    }
    runs
}

/// The text form of a run: one digest per line, each line ended by a line break.
pub fn encode_run(run: &[Vec<u8>]) -> (r: Vec<u8>)
    ensures
        r@ == run_text(views(run@)),
{
    let mut out: Vec<u8> = Vec::new();
    let mut i: usize = 0;
    while i < run.len()
        invariant
            i <= run@.len(),
            out@ == run_text(views(run@).take(i as int)),
        decreases run@.len() - i,
    {
        let mut line = digest_to_hex(&run[i]);
        line.push(10u8);
        out.append(&mut line);
        proof {
            assert(views(run@).take(i + 1).drop_last() =~= views(run@).take(i as int));
        }
        i = i + 1;
    }
    proof {
        assert(views(run@).take(run@.len() as int) =~= views(run@));
    }
    out
}

/// Each entry in text form followed by a line break, one after another.
pub open spec fn run_text(s: Seq<Seq<u8>>) -> Seq<u8>
    decreases s.len(),
{
    if s.len() == 0 {
        Seq::empty()
    } else {
        run_text(s.drop_last()) + hex_encode(s.last()).push(10u8)
    }
}

} // verus!
