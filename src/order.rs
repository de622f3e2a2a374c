//! Byte-wise lexicographic order on digests.

use vstd::multiset::Multiset;
use vstd::prelude::*;
use vstd::relations::{sorted_by, total_ordering};

verus! {

/// Lexicographic order on byte strings: the order that `Ord` gives `[u8]`.
pub open spec fn lex_le(a: Seq<u8>, b: Seq<u8>) -> bool
    decreases a.len(),
{
    if a.len() == 0 {
        true
    } else if b.len() == 0 {
        false
    } else if a[0] != b[0] {
        a[0] < b[0]
    } else {
        lex_le(a.drop_first(), b.drop_first())
    }
}

/// The byte strings held by a sequence of vectors.
pub open spec fn views(v: Seq<Vec<u8>>) -> Seq<Seq<u8>> {
    v.map_values(|d: Vec<u8>| d@)
}

/// Every entry is at most every later entry.
pub open spec fn is_sorted(s: Seq<Seq<u8>>) -> bool {
    forall|i: int, j: int| 0 <= i <= j < s.len() ==> #[trigger] lex_le(s[i], s[j])
}

/// The byte strings of each run.
pub open spec fn runs_view(r: Seq<Vec<Vec<u8>>>) -> Seq<Seq<Seq<u8>>> {
    r.map_values(|run: Vec<Vec<u8>>| views(run@))
}

/// Every entry of every run, as a multiset.
pub open spec fn concat_ms(runs: Seq<Seq<Seq<u8>>>) -> Multiset<Seq<u8>>
    decreases runs.len(),
{
    if runs.len() == 0 {
        Multiset::empty()
    } else {
        concat_ms(runs.drop_last()).add(runs.last().to_multiset())
    }
}

pub proof fn lemma_lex_le_reflexive(a: Seq<u8>)
    ensures
        lex_le(a, a),
    decreases a.len(),
{
    if a.len() > 0 {
        lemma_lex_le_reflexive(a.drop_first());
    }
}

pub proof fn lemma_lex_le_total(a: Seq<u8>, b: Seq<u8>)
    ensures
        lex_le(a, b) || lex_le(b, a),
    decreases a.len(),
{
    if a.len() > 0 && b.len() > 0 && a[0] == b[0] {
        lemma_lex_le_total(a.drop_first(), b.drop_first());
    }
}

pub proof fn lemma_lex_le_antisymmetric(a: Seq<u8>, b: Seq<u8>)
    requires
        lex_le(a, b),
        lex_le(b, a),
    ensures
        a == b,
    decreases a.len(),
{
    if a.len() > 0 && b.len() > 0 {
        lemma_lex_le_antisymmetric(a.drop_first(), b.drop_first());
        assert(a =~= seq![a[0]] + a.drop_first());
        assert(b =~= seq![b[0]] + b.drop_first());
    } else {
        assert(a =~= b);
    }
}

pub proof fn lemma_lex_le_transitive(a: Seq<u8>, b: Seq<u8>, c: Seq<u8>)
    requires
        lex_le(a, b),
        lex_le(b, c),
    ensures
        lex_le(a, c),
    decreases a.len(),
{
    if a.len() > 0 && b.len() > 0 && c.len() > 0 && a[0] == b[0] && b[0] == c[0] {
        lemma_lex_le_transitive(a.drop_first(), b.drop_first(), c.drop_first());
    }
}

/// Decides `lex_le` on two byte strings.
pub fn digest_le(a: &[u8], b: &[u8]) -> (r: bool)
    ensures
        r == lex_le(a@, b@),
{
    let mut i: usize = 0;
    assert(a@.skip(0) =~= a@);
    assert(b@.skip(0) =~= b@);
    while i < a.len() && i < b.len()
        invariant
            i <= a@.len(),
            i <= b@.len(),
            lex_le(a@, b@) == lex_le(a@.skip(i as int), b@.skip(i as int)),
        decreases a@.len() - i,
    {
        if a[i] != b[i] {
            return a[i] < b[i];
        }
        assert(a@.skip(i as int).drop_first() =~= a@.skip(i + 1));
        assert(b@.skip(i as int).drop_first() =~= b@.skip(i + 1));
        i = i + 1;
    }
    i == a.len()
}

/// The entries of `s` in ascending order.
pub open spec fn ascending(s: Seq<Seq<u8>>) -> Seq<Seq<u8>> {
    s.sort_by(|a: Seq<u8>, b: Seq<u8>| lex_le(a, b))
}

pub proof fn lemma_lex_le_total_ordering()
    ensures
        total_ordering(|a: Seq<u8>, b: Seq<u8>| lex_le(a, b)),
{
    let leq = |a: Seq<u8>, b: Seq<u8>| lex_le(a, b);
    assert forall|a: Seq<u8>| #[trigger] leq(a, a) by {
        lemma_lex_le_reflexive(a);
    }
    assert forall|a: Seq<u8>, b: Seq<u8>| #[trigger] leq(a, b) && #[trigger] leq(b, a) implies a == b by {
        lemma_lex_le_antisymmetric(a, b);
    }
    assert forall|a: Seq<u8>, b: Seq<u8>, c: Seq<u8>| #[trigger] leq(a, b) && #[trigger] leq(b, c) implies leq(a, c) by {
        lemma_lex_le_transitive(a, b, c);
    }
    assert forall|a: Seq<u8>, b: Seq<u8>| #[trigger] leq(a, b) || #[trigger] leq(b, a) by {
        lemma_lex_le_total(a, b);
    }
}

/// Two sorted sequences with the same entries are equal.
pub proof fn lemma_sorted_unique(a: Seq<Seq<u8>>, b: Seq<Seq<u8>>)
    requires
        is_sorted(a),
        is_sorted(b),
        a.to_multiset() == b.to_multiset(),
    ensures
        a == b,
    decreases a.len(),
{
    broadcast use vstd::seq_lib::group_to_multiset_ensures;

    assert(a.to_multiset().len() == a.len());
    assert(b.to_multiset().len() == b.len());
    assert(a.len() == b.len());
    if a.len() > 0 {
        assert(a.contains(a[0]));
        assert(b.contains(b[0]));
        assert(a.to_multiset().count(a[0]) > 0);
        assert(b.to_multiset().count(b[0]) > 0);
        assert(b.contains(a[0]));
        assert(a.contains(b[0]));
        let i = choose|i: int| 0 <= i < b.len() && b[i] == a[0];
        let j = choose|j: int| 0 <= j < a.len() && a[j] == b[0];
        assert(lex_le(b[0], b[i]));
        assert(lex_le(a[0], a[j]));
        lemma_lex_le_antisymmetric(a[0], b[0]);
        assert(a.remove(0) =~= a.drop_first());
        assert(b.remove(0) =~= b.drop_first());
        assert(a.drop_first().to_multiset() =~= b.drop_first().to_multiset());
        assert(is_sorted(a.drop_first())) by {
            assert forall|x: int, y: int| 0 <= x <= y < a.drop_first().len() implies #[trigger] lex_le(
                a.drop_first()[x],
                a.drop_first()[y],
            ) by {
                assert(lex_le(a[x + 1], a[y + 1]));
            }
        }
        assert(is_sorted(b.drop_first())) by {
            assert forall|x: int, y: int| 0 <= x <= y < b.drop_first().len() implies #[trigger] lex_le(
                b.drop_first()[x],
                b.drop_first()[y],
            ) by {
                assert(lex_le(b[x + 1], b[y + 1]));
            }
        }
        lemma_sorted_unique(a.drop_first(), b.drop_first());
        assert(a[0] == b[0]);
        assert(a =~= seq![a[0]] + a.drop_first());
        assert(b =~= seq![b[0]] + b.drop_first());
    } else {
        assert(a =~= b);
    }
}

/// A sorted sequence that holds the entries of `s` is `ascending(s)`.
pub proof fn lemma_ascending_unique(s: Seq<Seq<u8>>, t: Seq<Seq<u8>>)
    requires
        is_sorted(t),
        t.to_multiset() == s.to_multiset(),
    ensures
        t == ascending(s),
{
    let leq = |a: Seq<u8>, b: Seq<u8>| lex_le(a, b);
    lemma_lex_le_total_ordering();
    s.lemma_sort_by_ensures(leq);
    let u = ascending(s);
    assert(sorted_by(u, leq));
    assert forall|i: int, j: int| 0 <= i <= j < u.len() implies #[trigger] lex_le(u[i], u[j]) by {
        if i == j {
            lemma_lex_le_reflexive(u[i]);
        } else {
            assert(leq(u[i], u[j]));
        }
    }
    lemma_sorted_unique(t, u);
}

/// The entries of all runs together, as a multiset, are those of their concatenation.
pub proof fn lemma_concat_ms_flatten(runs: Seq<Seq<Seq<u8>>>)
    ensures
        concat_ms(runs) == runs.flatten().to_multiset(),
    decreases runs.len(),
{
    broadcast use vstd::seq_lib::group_to_multiset_ensures;

    if runs.len() == 0 {
        assert(runs.flatten() =~= Seq::<Seq<u8>>::empty());
        assert(runs.flatten().to_multiset() =~= Multiset::empty());
    } else {
        lemma_concat_ms_flatten(runs.drop_last());
        assert(runs =~= runs.drop_last().push(runs.last()));
        runs.drop_last().lemma_flatten_push(runs.last());
        vstd::seq_lib::lemma_multiset_commutative(runs.drop_last().flatten(), runs.last());
    }
}

} // verus!
