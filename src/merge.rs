//! The k-way merger: sorted runs become one sorted sequence through a queue
//! that holds at most one pending entry per run.

use vstd::multiset::Multiset;
use vstd::prelude::*;
use crate::order::{
    ascending, concat_ms, digest_le, is_sorted, lemma_ascending_unique, lemma_concat_ms_flatten,
    lemma_lex_le_antisymmetric, lemma_lex_le_reflexive, lemma_lex_le_total, lemma_lex_le_transitive, lex_le,
    runs_view, views,
};

verus! {

broadcast use vstd::seq_lib::group_to_multiset_ensures;

/// `d`, the pending entry of run `i`, is the least pending entry, and no run
/// before `i` holds an entry equal to it: the entry that the queue, ordered
/// by entry and then by run index, gives first.
pub open spec fn is_first_head(heads: Seq<Option<Seq<u8>>>, i: int, d: Seq<u8>) -> bool {
    &&& 0 <= i < heads.len()
    &&& heads[i] == Some(d)
    &&& forall|j: int| 0 <= j < heads.len() && (#[trigger] heads[j]) is Some ==> lex_le(d, heads[j]->0)
    &&& forall|j: int| 0 <= j < i && (#[trigger] heads[j]) is Some ==> !lex_le(heads[j]->0, d)
}

/// A copy of a digest.
fn copy_bytes(d: &Vec<u8>) -> (r: Vec<u8>)
    ensures
        r@ == d@,
{
    let r = d.clone();
    proof {
        assert(r@ =~= d@);
    }
    r
}

/// Exchanges the entries at positions `a` and `b`.
fn swap_entries(v: &mut Vec<(Vec<u8>, usize)>, a: usize, b: usize)
    requires
        a < old(v)@.len(),
        b < old(v)@.len(),
        a != b,
    ensures
        final(v)@ == old(v)@.update(a as int, old(v)@[b as int]).update(b as int, old(v)@[a as int]),
{
    let ghost before = v@;
    let mut tmp: (Vec<u8>, usize) = (Vec::new(), 0);
    std::mem::swap(&mut v[b], &mut tmp);
    assert(tmp == before[b as int]);
    assert(v@[a as int] == before[a as int]);
    std::mem::swap(&mut v[a], &mut tmp);
    assert(tmp == before[a as int]);
    assert(v@[a as int] == before[b as int]);
    v.set(b, tmp);
    assert(v@ =~= old(v)@.update(a as int, old(v)@[b as int]).update(b as int, old(v)@[a as int]));
}

/// The order of the queue's entries: by digest, then by run index.
pub open spec fn entry_le(a: (Seq<u8>, usize), b: (Seq<u8>, usize)) -> bool {
    lex_le(a.0, b.0) && (a.0 == b.0 ==> a.1 <= b.1)
}

/// The digest and the run index of each entry.
pub open spec fn entry_views(h: Seq<(Vec<u8>, usize)>) -> Seq<(Seq<u8>, usize)> {
    h.map_values(|e: (Vec<u8>, usize)| (e.0@, e.1))
}

/// The position of the parent of position `m` in a binary heap.
pub open spec fn parent(m: int) -> int {
    (m - 1) / 2
}

/// The entry at `m` is not below its parent's.
pub open spec fn le_parent(h: Seq<(Seq<u8>, usize)>, m: int) -> bool {
    entry_le(h[parent(m)], h[m])
}

/// No entry is below its parent's: the order of a binary min-heap.
pub open spec fn heap_ordered(h: Seq<(Seq<u8>, usize)>) -> bool {
    forall|m: int| 0 < m < h.len() ==> #[trigger] le_parent(h, m)
}

/// The entries are the pending entries: one per run that has one, with its digest.
pub open spec fn entries_match(h: Seq<(Seq<u8>, usize)>, heads: Seq<Option<Seq<u8>>>) -> bool {
    &&& forall|k: int|
        0 <= k < h.len() ==> (#[trigger] h[k]).1 < heads.len() && heads[h[k].1 as int] == Some(h[k].0)
    &&& forall|a: int, b: int| 0 <= a < b < h.len() ==> (#[trigger] h[a]).1 != (#[trigger] h[b]).1
    &&& forall|i: int|
        0 <= i < heads.len() && (#[trigger] heads[i]) is Some ==> exists|k: int| 0 <= k < h.len() && h[k].1 == i
}

/// `h` with the entries at `a` and `b` exchanged.
pub open spec fn swapped<A>(h: Seq<A>, a: int, b: int) -> Seq<A> {
    h.update(a, h[b]).update(b, h[a])
}

/// Heap order but for the entry at `k`, which may be below its parent; its
/// children are not below that parent.
spec fn up_ok(h: Seq<(Seq<u8>, usize)>, k: int) -> bool {
    &&& forall|m: int| 0 < m < h.len() && m != k ==> #[trigger] le_parent(h, m)
    &&& forall|m: int| 0 < m < h.len() && parent(m) == k && k > 0 ==> entry_le(h[parent(k)], #[trigger] h[m])
}

/// Heap order but for the children of `k`, which may be below it; they are
/// not below the parent of `k`.
spec fn down_ok(h: Seq<(Seq<u8>, usize)>, k: int) -> bool {
    &&& forall|m: int| 0 < m < h.len() && parent(m) != k ==> #[trigger] le_parent(h, m)
    &&& forall|m: int| 0 < m < h.len() && parent(m) == k && k > 0 ==> entry_le(h[parent(k)], #[trigger] h[m])
}

proof fn lemma_entry_le_reflexive(a: (Seq<u8>, usize))
    ensures
        entry_le(a, a),
{
    lemma_lex_le_reflexive(a.0);
}

proof fn lemma_entry_le_transitive(a: (Seq<u8>, usize), b: (Seq<u8>, usize), c: (Seq<u8>, usize))
    requires
        entry_le(a, b),
        entry_le(b, c),
    ensures
        entry_le(a, c),
{
    lemma_lex_le_transitive(a.0, b.0, c.0);
    if a.0 == c.0 {
        lemma_lex_le_antisymmetric(a.0, b.0);
    }
}

proof fn lemma_entry_le_total(a: (Seq<u8>, usize), b: (Seq<u8>, usize))
    ensures
        entry_le(a, b) || entry_le(b, a),
{
    lemma_lex_le_total(a.0, b.0);
    if lex_le(a.0, b.0) && lex_le(b.0, a.0) {
        lemma_lex_le_antisymmetric(a.0, b.0);
    }
}

/// The root of a heap is not above any entry.
proof fn lemma_root_le(h: Seq<(Seq<u8>, usize)>, k: int)
    requires
        heap_ordered(h),
        0 <= k < h.len(),
    ensures
        entry_le(h[0], h[k]),
    decreases k,
{
    if k == 0 {
        lemma_entry_le_reflexive(h[0]);
    } else {
        assert(le_parent(h, k));
        lemma_root_le(h, parent(k));
        lemma_entry_le_transitive(h[0], h[parent(k)], h[k]);
    }
}

proof fn lemma_swap_match(h: Seq<(Seq<u8>, usize)>, heads: Seq<Option<Seq<u8>>>, a: int, b: int)
    requires
        entries_match(h, heads),
        0 <= a < h.len(),
        0 <= b < h.len(),
    ensures
        entries_match(swapped(h, a, b), heads),
{
    let g = swapped(h, a, b);
    assert forall|k: int| 0 <= k < g.len() implies (#[trigger] g[k]).1 < heads.len() && heads[g[k].1 as int]
        == Some(g[k].0) by {
        if k == b {
            assert(g[k] == h[a]);
        } else if k == a {
            assert(g[k] == h[b]);
        } else {
            assert(g[k] == h[k]);
        }
    }
    assert forall|x: int, y: int| 0 <= x < y < g.len() implies (#[trigger] g[x]).1 != (#[trigger] g[y]).1 by {
        let sx = if x == b {
            a
        } else if x == a {
            b
        } else {
            x
        };
        let sy = if y == b {
            a
        } else if y == a {
            b
        } else {
            y
        };
        assert(g[x] == h[sx]);
        assert(g[y] == h[sy]);
        if sx < sy {
            assert(h[sx].1 != h[sy].1);
        } else {
            assert(h[sy].1 != h[sx].1);
        }
    }
    assert forall|i: int| 0 <= i < heads.len() && (#[trigger] heads[i]) is Some implies exists|k: int|
        0 <= k < g.len() && g[k].1 == i by {
        let k = choose|k: int| 0 <= k < h.len() && h[k].1 == i;
        let t = if k == a {
            b
        } else if k == b {
            a
        } else {
            k
        };
        assert(g[t] == h[k]);
    }
}

proof fn lemma_sift_up_step(h: Seq<(Seq<u8>, usize)>, k: int)
    requires
        0 < k < h.len(),
        up_ok(h, k),
        !entry_le(h[parent(k)], h[k]),
    ensures
        up_ok(swapped(h, parent(k), k), parent(k)),
{
    let p = parent(k);
    let g = swapped(h, p, k);
    lemma_entry_le_total(h[p], h[k]);
    assert forall|m: int| 0 < m < g.len() && m != p implies #[trigger] le_parent(g, m) by {
        if m == k {
        } else if parent(m) == k {
            assert(entry_le(h[parent(k)], h[m]));
        } else if parent(m) == p {
            assert(le_parent(h, m));
            lemma_entry_le_transitive(h[k], h[p], h[m]);
        } else {
            assert(le_parent(h, m));
        }
    }
    assert forall|m: int| 0 < m < g.len() && parent(m) == p && p > 0 implies entry_le(
        g[parent(p)],
        #[trigger] g[m],
    ) by {
        assert(le_parent(h, p));
        if m == k {
        } else {
            assert(le_parent(h, m));
            lemma_entry_le_transitive(h[parent(p)], h[p], h[m]);
        }
    }
}

proof fn lemma_sift_down_step(h: Seq<(Seq<u8>, usize)>, k: int, m: int)
    requires
        0 <= k < m < h.len(),
        parent(m) == k,
        down_ok(h, k),
        forall|o: int| 0 < o < h.len() && parent(o) == k ==> entry_le(h[m], #[trigger] h[o]),
        entry_le(h[m], h[k]),
    ensures
        down_ok(swapped(h, k, m), m),
{
    let g = swapped(h, k, m);
    assert forall|x: int| 0 < x < g.len() && parent(x) != m implies #[trigger] le_parent(g, x) by {
        if x == m {
        } else if parent(x) == k {
            assert(entry_le(h[m], h[x]));
        } else if x == k {
            assert(entry_le(h[parent(k)], h[m]));
        } else {
            assert(le_parent(h, x));
        }
    }
    assert forall|x: int| 0 < x < g.len() && parent(x) == m && m > 0 implies entry_le(
        g[parent(m)],
        #[trigger] g[x],
    ) by {
        assert(le_parent(h, x));
    }
}

/// Compares two entries of the queue.
fn entry_le_exec(a: &(Vec<u8>, usize), b: &(Vec<u8>, usize)) -> (r: bool)
    ensures
        r == entry_le((a.0@, a.1), (b.0@, b.1)),
{
    let ab = digest_le(&a.0, &b.0);
    let ba = digest_le(&b.0, &a.0);
    proof {
        if ab && ba {
            lemma_lex_le_antisymmetric(a.0@, b.0@);
        }
        if a.0@ == b.0@ {
            lemma_lex_le_reflexive(a.0@);
        }
    }
    ab && (!ba || a.1 <= b.1)
}

/// The pending entries of a k-way merge, at most one per run, in a binary
/// min-heap ordered by entry and then by run index.
pub struct Merger {
    heap: Vec<(Vec<u8>, usize)>,
    n_runs: usize,
    heads: Ghost<Seq<Option<Seq<u8>>>>,
}

impl View for Merger {
    type V = Seq<Option<Seq<u8>>>;

    /// The pending entry of each run.
    closed spec fn view(&self) -> Seq<Option<Seq<u8>>> {
        self.heads@
    }
}

impl Merger {
    pub closed spec fn wf(&self) -> bool {
        &&& heap_ordered(entry_views(self.heap@))
        &&& self.heads@.len() == self.n_runs
        &&& entries_match(entry_views(self.heap@), self.heads@)
    }

    /// A merger over `n_runs` runs, with no entry pending.
    pub fn new(n_runs: usize) -> (r: Merger)
        ensures
            r.wf(),
            r@ == Seq::new(n_runs as nat, |i: int| None::<Seq<u8>>),
    {
        let r = Merger { heap: Vec::new(), n_runs, heads: Ghost(Seq::new(n_runs as nat, |i: int| None::<Seq<u8>>)) };
        assert(entry_views(r.heap@) =~= Seq::<(Seq<u8>, usize)>::empty());
        r
    }

    /// How many runs the merger was made for.
    pub fn run_count(&self) -> (r: usize)
        requires
            self.wf(),
        ensures
            r == self@.len(),
    {
        self.n_runs
    }

    /// Hands in the next entry of run `run`, which has none pending.
    pub fn offer(&mut self, run: usize, entry: Vec<u8>)
        requires
            old(self).wf(),
            run < old(self)@.len(),
            old(self)@[run as int] is None,
        ensures
            final(self).wf(),
            final(self)@ == old(self)@.update(run as int, Some(entry@)),
    {
        let ghost e = entry@;
        let ghost h0 = entry_views(self.heap@);
        self.heap.push((entry, run));
        self.heads = Ghost(self.heads@.update(run as int, Some(e)));
        proof {
            let h = entry_views(self.heap@);
            assert(h =~= h0.push((e, run)));
            let heads = self.heads@;
            assert forall|k: int| 0 <= k < h.len() implies (#[trigger] h[k]).1 < heads.len() && heads[h[k].1
                as int] == Some(h[k].0) by {
                if k < h0.len() {
                    assert(h[k] == h0[k]);
                    assert(old(self).heads@[h0[k].1 as int] is Some);
                }
            }
            assert forall|a: int, b: int| 0 <= a < b < h.len() implies (#[trigger] h[a]).1 != (
            #[trigger] h[b]).1 by {
                assert(h[a] == h0[a]);
                if b < h0.len() {
                    assert(h[b] == h0[b]);
                } else {
                    assert(old(self).heads@[h0[a].1 as int] is Some);
                }
            }
            assert forall|i: int| 0 <= i < heads.len() && (#[trigger] heads[i]) is Some implies exists|k: int|
                0 <= k < h.len() && h[k].1 == i by {
                if i == run {
                    assert(h[h0.len() as int].1 == i);
                } else {
                    assert(old(self).heads@[i] is Some);
                    let k = choose|k: int| 0 <= k < h0.len() && h0[k].1 == i;
                    assert(h[k] == h0[k]);
                }
            }
            assert forall|m: int| 0 < m < h.len() && m != h0.len() implies #[trigger] le_parent(h, m) by {
                assert(le_parent(h0, m));
            }
        }
        let mut k: usize = self.heap.len() - 1;
        loop
            invariant
                k < self.heap@.len(),
                self.heads@.len() == self.n_runs,
                self.heads@ == old(self)@.update(run as int, Some(e)),
                entries_match(entry_views(self.heap@), self.heads@),
                up_ok(entry_views(self.heap@), k as int),
            ensures
                self.heads@.len() == self.n_runs,
                self.heads@ == old(self)@.update(run as int, Some(e)),
                entries_match(entry_views(self.heap@), self.heads@),
                heap_ordered(entry_views(self.heap@)),
            decreases k,
        {
            if k == 0 {
                break;
            }
            let p = (k - 1) / 2;
            if entry_le_exec(&self.heap[p], &self.heap[k]) {
                proof {
                    let h = entry_views(self.heap@);
                    assert(le_parent(h, k as int));
                }
                break;
            }
            let ghost h = entry_views(self.heap@);
            proof {
                lemma_sift_up_step(h, k as int);
                lemma_swap_match(h, self.heads@, p as int, k as int);
            }
            swap_entries(&mut self.heap, p, k);
            assert(entry_views(self.heap@) =~= swapped(h, p as int, k as int));
            k = p;
        }
    }

    /// Takes out the least pending entry, the one of the lowest run index among
    /// equal ones, with its run index; `None` when no entry is pending.
    pub fn pop_min(&mut self) -> (r: Option<(Vec<u8>, usize)>)
        requires
            old(self).wf(),
        ensures
            final(self).wf(),
            r is None <==> forall|j: int| 0 <= j < old(self)@.len() ==> (#[trigger] old(self)@[j]) is None,
            r is None ==> final(self)@ == old(self)@,
            r matches Some((d, i)) ==> {
                &&& is_first_head(old(self)@, i as int, d@)
                &&& final(self)@ == old(self)@.update(i as int, None)
            },
    {
        let ghost h0 = entry_views(self.heap@);
        let ghost heads0 = self.heads@;
        if self.heap.len() == 0 {
            proof {
                assert forall|j: int| 0 <= j < heads0.len() implies #[trigger] heads0[j] is None by {
                    if heads0[j] is Some {
                        let k = choose|k: int| 0 <= k < h0.len() && h0[k].1 == j;
                    }
                }
            }
            return None;
        }
        let (d, i) = self.heap.swap_remove(0);
        proof {
            assert(h0[0] == (d@, i));
            assert(heads0[i as int] == Some(d@));
            assert forall|j: int| 0 <= j < heads0.len() && (#[trigger] heads0[j]) is Some implies lex_le(
                d@,
                heads0[j]->0,
            ) && (j < i ==> !lex_le(heads0[j]->0, d@)) by {
                let k = choose|k: int| 0 <= k < h0.len() && h0[k].1 == j;
                lemma_root_le(h0, k);
                if j < i && lex_le(heads0[j]->0, d@) {
                    lemma_lex_le_antisymmetric(d@, heads0[j]->0);
                }
            }
            assert(is_first_head(heads0, i as int, d@));
        }
        self.heads = Ghost(self.heads@.update(i as int, None));
        let n = self.heap.len();
        proof {
            let h = entry_views(self.heap@);
            let last = h0.len() - 1;
            assert(h =~= h0.update(0, h0[last]).drop_last());
            let heads = self.heads@;
            assert forall|k: int| 0 <= k < h.len() implies (#[trigger] h[k]).1 < heads.len() && heads[h[k].1
                as int] == Some(h[k].0) by {
                let s = if k == 0 {
                    last
                } else {
                    k
                };
                assert(h[k] == h0[s]);
                assert(h0[0].1 != h0[s].1);
            }
            assert forall|a: int, b: int| 0 <= a < b < h.len() implies (#[trigger] h[a]).1 != (
            #[trigger] h[b]).1 by {
                let sa = if a == 0 {
                    last
                } else {
                    a
                };
                assert(h[a] == h0[sa]);
                assert(h[b] == h0[b]);
                if sa < b {
                    assert(h0[sa].1 != h0[b].1);
                } else {
                    assert(h0[b].1 != h0[sa].1);
                }
            }
            assert forall|j: int| 0 <= j < heads.len() && (#[trigger] heads[j]) is Some implies exists|k: int|
                0 <= k < h.len() && h[k].1 == j by {
                assert(heads0[j] is Some);
                let k = choose|k: int| 0 <= k < h0.len() && h0[k].1 == j;
                assert(k != 0);
                let t = if k == last {
                    0
                } else {
                    k
                };
                assert(h[t] == h0[k]);
            }
            assert forall|m: int| 0 < m < h.len() && parent(m) != 0 implies #[trigger] le_parent(h, m) by {
                assert(le_parent(h0, m));
            }
        }
        let mut k: usize = 0;
        if n > 0 {
            loop
                invariant
                    n == self.heap@.len(),
                    k < n,
                    self.heads@.len() == self.n_runs,
                    self.heads@ == heads0.update(i as int, None),
                    entries_match(entry_views(self.heap@), self.heads@),
                    down_ok(entry_views(self.heap@), k as int),
                ensures
                    self.heads@.len() == self.n_runs,
                    self.heads@ == heads0.update(i as int, None),
                    entries_match(entry_views(self.heap@), self.heads@),
                    heap_ordered(entry_views(self.heap@)),
                decreases n - k,
            {
                let ghost h = entry_views(self.heap@);
                if n - k <= k + 1 {
                    proof {
                        assert forall|m: int| 0 < m < h.len() implies #[trigger] le_parent(h, m) by {
                            assert(parent(m) != k);
                        }
                    }
                    break;
                }
                let l = 2 * k + 1;
                let r = l + 1;
                let m = if r < n && !entry_le_exec(&self.heap[l], &self.heap[r]) {
                    r
                } else {
                    l
                };
                proof {
                    if r < n {
                        lemma_entry_le_total(h[l as int], h[r as int]);
                    }
                    lemma_entry_le_reflexive(h[m as int]);
                    assert forall|o: int| 0 < o < h.len() && parent(o) == k implies entry_le(
                        h[m as int],
                        #[trigger] h[o],
                    ) by {
                        assert(o == l || o == r);
                    }
                }
                if entry_le_exec(&self.heap[k], &self.heap[m]) {
                    proof {
                        assert forall|x: int| 0 < x < h.len() implies #[trigger] le_parent(h, x) by {
                            if parent(x) == k {
                                lemma_entry_le_transitive(h[k as int], h[m as int], h[x]);
                            }
                        }
                    }
                    break;
                }
                proof {
                    lemma_entry_le_total(h[k as int], h[m as int]);
                    lemma_sift_down_step(h, k as int, m as int);
                    lemma_swap_match(h, self.heads@, k as int, m as int);
                }
                swap_entries(&mut self.heap, k, m);
                assert(entry_views(self.heap@) =~= swapped(h, k as int, m as int));
                k = m;
            }
        }
        Some((d, i))
    }
}

/// What remains of each run from its cursor on, as a multiset.
pub open spec fn rest_ms(runs: Seq<Seq<Seq<u8>>>, pos: Seq<usize>) -> Multiset<Seq<u8>>
    decreases runs.len(),
{
    if runs.len() == 0 {
        Multiset::empty()
    } else {
        rest_ms(runs.drop_last(), pos.drop_last()).add(
            runs.last().skip(pos.last() as int).to_multiset(),
        )
    }
}

proof fn lemma_rest_ms_start(runs: Seq<Seq<Seq<u8>>>, pos: Seq<usize>)
    requires
        pos.len() == runs.len(),
        forall|k: int| 0 <= k < pos.len() ==> #[trigger] pos[k] == 0,
    ensures
        rest_ms(runs, pos) == concat_ms(runs),
    decreases runs.len(),
{
    if runs.len() > 0 {
        lemma_rest_ms_start(runs.drop_last(), pos.drop_last());
        assert(runs.last().skip(0) =~= runs.last());
    }
}

proof fn lemma_rest_ms_done(runs: Seq<Seq<Seq<u8>>>, pos: Seq<usize>)
    requires
        pos.len() == runs.len(),
        forall|k: int| 0 <= k < pos.len() ==> #[trigger] pos[k] == runs[k].len(),
    ensures
        rest_ms(runs, pos) == Multiset::<Seq<u8>>::empty(),
    decreases runs.len(),
{
    if runs.len() > 0 {
        lemma_rest_ms_done(runs.drop_last(), pos.drop_last());
        assert(runs.last().skip(pos.last() as int) =~= Seq::<Seq<u8>>::empty());
        assert(rest_ms(runs, pos) =~= Multiset::<Seq<u8>>::empty());
    }
}

proof fn lemma_rest_ms_advance(runs: Seq<Seq<Seq<u8>>>, pos: Seq<usize>, k: int)
    requires
        pos.len() == runs.len(),
        0 <= k < runs.len(),
        pos[k] < runs[k].len(),
        pos[k] + 1 <= usize::MAX,
    ensures
        rest_ms(runs, pos) == rest_ms(runs, pos.update(k, (pos[k] + 1) as usize)).insert(
            runs[k][pos[k] as int],
        ),
    decreases runs.len(),
{
    let next = pos.update(k, (pos[k] + 1) as usize);
    let last = runs.len() - 1;
    if k == last {
        assert(next.drop_last() =~= pos.drop_last());
        let s = runs[k];
        let p = pos[k] as int;
        assert(s.skip(p) =~= s.skip(p + 1).insert(0, s[p]));
        vstd::seq_lib::to_multiset_insert(s.skip(p + 1), 0, s[p]);
        assert(rest_ms(runs, pos) =~= rest_ms(runs, next).insert(s[p]));
    } else {
        lemma_rest_ms_advance(runs.drop_last(), pos.drop_last(), k);
        assert(next.drop_last() =~= pos.drop_last().update(k, (pos[k] + 1) as usize));
        assert(rest_ms(runs, pos) =~= rest_ms(runs, next).insert(runs[k][pos[k] as int]));
    }
}

/// Merges runs that are each sorted into one sorted sequence that holds
/// every entry of every run, through a `Merger` with one pending entry per
/// run: the result is the concatenation of the runs, sorted.
pub fn merge_runs(runs: &Vec<Vec<Vec<u8>>>) -> (r: Vec<Vec<u8>>)
    requires
        forall|k: int| 0 <= k < runs@.len() ==> is_sorted(#[trigger] views(runs@[k]@)),
    ensures
        is_sorted(views(r@)),
        views(r@).to_multiset() == concat_ms(runs_view(runs@)),
        views(r@) == ascending(runs_view(runs@).flatten()),
{
    let ghost rv = runs_view(runs@);
    let n = runs.len();
    let mut merger = Merger::new(n);
    let mut pos: Vec<usize> = Vec::new();
    let mut k: usize = 0;
    while k < n
        invariant
            k <= n,
            n == runs@.len(),
            rv == runs_view(runs@),
            pos@.len() == k,
            merger.wf(),
            merger@.len() == n,
            forall|j: int| 0 <= j < k ==> #[trigger] pos@[j] == 0,
            forall|j: int|
                0 <= j < n ==> #[trigger] merger@[j] == if j < k && 0 < rv[j].len() {
                    Some(rv[j][0])
                } else {
                    None
                },
        decreases n - k,
    {
        if runs[k].len() > 0 {
            let first = copy_bytes(&runs[k][0]);
            merger.offer(k, first);
        }
        pos.push(0);
        k = k + 1;
    }
    proof {
        lemma_rest_ms_start(rv, pos@);
    }
    let mut out: Vec<Vec<u8>> = Vec::new();
    assert(views(out@).to_multiset() =~= Multiset::<Seq<u8>>::empty());
    loop
        invariant
            n == runs@.len(),
            rv == runs_view(runs@),
            forall|j: int| 0 <= j < n ==> is_sorted(#[trigger] rv[j]),
            pos@.len() == n,
            merger.wf(),
            merger@.len() == n,
            forall|j: int| 0 <= j < n ==> #[trigger] pos@[j] <= rv[j].len(),
            forall|j: int|
                0 <= j < n ==> #[trigger] merger@[j] == if pos@[j] < rv[j].len() {
                    Some(rv[j][pos@[j] as int])
                } else {
                    None
                },
            views(out@).to_multiset().add(rest_ms(rv, pos@)) == concat_ms(rv),
            is_sorted(views(out@)),
            out@.len() > 0 ==> forall|j: int|
                0 <= j < n && pos@[j] < rv[j].len() ==> lex_le(
                    views(out@).last(),
                    #[trigger] rv[j][pos@[j] as int],
                ),
        ensures
            is_sorted(views(out@)),
            views(out@).to_multiset() == concat_ms(rv),
        decreases rest_ms(rv, pos@).len(),
    {
        let ghost before_pop = merger@;
        let popped = merger.pop_min();
        match popped {
            None => {
                proof {
                    assert forall|j: int| 0 <= j < pos@.len() implies #[trigger] pos@[j] == rv[j].len() by {
                        assert(before_pop[j] is None);
                    }
                    lemma_rest_ms_done(rv, pos@);
                    assert(views(out@).to_multiset().add(rest_ms(rv, pos@)) =~= views(out@).to_multiset());
                }
                break;
            },
            Some((d, i)) => {
                let run_len = runs[i].len();
                let ghost old_pos = pos@;
                let ghost old_out = views(out@);
                let ghost old_heads = before_pop;
                proof {
                    assert(old_heads[i as int] is Some);
                    assert(old_pos[i as int] < rv[i as int].len());
                    assert(d@ == rv[i as int][old_pos[i as int] as int]);
                    assert(rv[i as int].len() == run_len);
                    lemma_rest_ms_advance(rv, old_pos, i as int);
                }
                let p = pos[i] + 1;
                pos.set(i, p);
                out.push(d);
                proof {
                    assert(views(out@) =~= old_out.push(d@));
                    assert(views(out@).to_multiset() =~= old_out.to_multiset().insert(d@));
                    assert(views(out@).to_multiset().add(rest_ms(rv, pos@)) =~= concat_ms(rv));
                    assert forall|a: int, b: int|
                        0 <= a <= b < views(out@).len() implies #[trigger] lex_le(
                        views(out@)[a],
                        views(out@)[b],
                    ) by {
                        if b == old_out.len() {
                            if a == b {
                                lemma_lex_le_reflexive(d@);
                            } else {
                                assert(lex_le(old_out[a], old_out.last()));
                                lemma_lex_le_transitive(old_out[a], old_out.last(), d@);
                            }
                        } else {
                            assert(views(out@)[a] == old_out[a]);
                            assert(views(out@)[b] == old_out[b]);
                        }
                    }
                    assert forall|j: int|
                        0 <= j < n && pos@[j] < rv[j].len() implies lex_le(
                        views(out@).last(),
                        #[trigger] rv[j][pos@[j] as int],
                    ) by {
                        if j == i {
                            let q = old_pos[j] as int;
                            assert(lex_le(rv[j][q], rv[j][q + 1]));
                        } else {
                            assert(old_heads[j] is Some);
                        }
                    }
                }
                if p < runs[i].len() {
                    assert(merger@[i as int] is None);
                    let next = copy_bytes(&runs[i][p]);
                    merger.offer(i, next);
                }
                proof {
                    assert forall|j: int|
                        0 <= j < n implies #[trigger] merger@[j] == if pos@[j] < rv[j].len() {
                            Some(rv[j][pos@[j] as int])
                        } else {
                            None
                        } by {
                        if j != i {
                            assert(merger@[j] == old_heads[j]);
                        }
                    }
                }
            },
        }
    }
    proof {
        lemma_concat_ms_flatten(rv);
        lemma_ascending_unique(rv.flatten(), views(out@));
    }
    out
}

} // verus!
