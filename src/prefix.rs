//! Detection of the normalization rule: the leading IP-address prefix that
//! the most lines share.

use vstd::multiset::Multiset;
use vstd::prelude::*;
use vstd::utf8::encode_utf8;
use crate::normalize::{trim, trim_str};

verus! {

/// The byte of a dot.
pub const DOT: u8 = 46;

pub open spec fn is_digit(b: u8) -> bool {
    48 <= b <= 57
}

/// How many ASCII digits follow one another from position `i` of `s` on.
pub open spec fn digit_run(s: Seq<u8>, i: int) -> nat
    decreases s.len() - i,
{
    if 0 <= i < s.len() && is_digit(s[i]) {
        1 + digit_run(s, i + 1)
    } else {
        0
    }
}

/// Where a group of one to three digits followed by a dot, starting at `i`, ends.
pub open spec fn group_end(s: Seq<u8>, i: int) -> Option<int> {
    let r = digit_run(s, i);
    if 1 <= r <= 3 && i + r < s.len() && s[i + r] == DOT {
        Some(i + r + 1)
    } else {
        None
    }
}

/// Where `k` such groups from the start of `s` end.
pub open spec fn groups_end(s: Seq<u8>, k: nat) -> Option<int>
    decreases k,
{
    if k == 0 {
        Some(0)
    } else {
        match groups_end(s, (k - 1) as nat) {
            Some(p) => group_end(s, p),
            None => None,
        }
    }
}

/// The length of a match made of `k` groups and then one to three digits,
/// as many as there are.
pub open spec fn match_with(s: Seq<u8>, k: nat) -> Option<int> {
    match groups_end(s, k) {
        Some(p) => {
            let r = digit_run(s, p);
            if r == 0 {
                None
            } else if r > 3 {
                Some(p + 3)
            } else {
                Some(p + r)
            }
        },
        None => None,
    }
}

/// The length of the leading match of `^(\d{1,3}\.){1,3}\d{1,3}` over ASCII
/// digits, as a leftmost-first engine finds it: the group is greedy, so three
/// groups are tried before two, and two before one.
pub open spec fn ip_match_len(s: Seq<u8>) -> Option<int> {
    if match_with(s, 3) is Some {
        match_with(s, 3)
    } else if match_with(s, 2) is Some {
        match_with(s, 2)
    } else {
        match_with(s, 1)
    }
}

/// `s` up to its `n`th dot, or the whole of `s` when it has fewer dots: the
/// first `n` of its dot-separated parts, joined by dots.
pub open spec fn before_dot(s: Seq<u8>, n: nat) -> Seq<u8>
    decreases s.len(),
{
    if s.len() == 0 {
        s
    } else if s[0] == DOT && n <= 1 {
        Seq::empty()
    } else if s[0] == DOT {
        seq![s[0]] + before_dot(s.drop_first(), (n - 1) as nat)
    } else {
        seq![s[0]] + before_dot(s.drop_first(), n)
    }
}

/// How many dots `s` holds.
pub open spec fn dot_count(s: Seq<u8>) -> nat
    decreases s.len(),
{
    if s.len() == 0 {
        0
    } else {
        dot_count(s.drop_last()) + if s.last() == DOT {
            1nat
        } else {
            0nat
        }
    }
}

fn digit_run_at(s: &[u8], i: usize) -> (r: usize)
    requires
        i <= s@.len(),
    ensures
        r == digit_run(s@, i as int),
        i + r <= s@.len(),
{
    let mut j = i;
    while j < s.len() && s[j] >= 48 && s[j] <= 57
        invariant
            i <= j <= s@.len(),
            digit_run(s@, i as int) == (j - i) + digit_run(s@, j as int),
        decreases s@.len() - j,
    {
        j = j + 1;
    }
    j - i
}

fn group_end_at(s: &[u8], i: usize) -> (r: Option<usize>)
    requires
        i <= s@.len(),
    ensures
        r matches Some(p) ==> group_end(s@, i as int) == Some(p as int) && p <= s@.len(),
        r is None ==> group_end(s@, i as int) is None,
{
    let len = s.len();
    let run = digit_run_at(s, i);
    if 1 <= run && run <= 3 && i + run < s.len() && s[i + run] == DOT {
        Some(i + run + 1)
    } else {
        None
    }
}

fn match_after(s: &[u8], end: Option<usize>) -> (r: Option<usize>)
    requires
        end matches Some(p) ==> p <= s@.len(),
    ensures
        end is None ==> r is None,
        end matches Some(p) ==> ({
            let d = digit_run(s@, p as int);
            &&& r is None <==> d == 0
            &&& r matches Some(n) ==> n == p + if d > 3 {
                3
            } else {
                d
            }
            &&& r matches Some(n) ==> n <= s@.len()
        }),
{
    match end {
        None => None,
        Some(p) => {
            let len = s.len();
            let run = digit_run_at(s, p);
            if run == 0 {
                None
            } else if run > 3 {
                Some(p + 3)
            } else {
                Some(p + run)
            }
        },
    }
}

/// The length of the leading IP address of `s`, if it starts with one.
pub fn leading_ip_len(s: &[u8]) -> (r: Option<usize>)
    ensures
        r is None <==> ip_match_len(s@) is None,
        r matches Some(n) ==> ip_match_len(s@) == Some(n as int) && n <= s@.len(),
{
    let e1 = group_end_at(s, 0);
    let e2 = match e1 {
        Some(p) => group_end_at(s, p),
        None => None,
    };
    let e3 = match e2 {
        Some(p) => group_end_at(s, p),
        None => None,
    };
    proof {
        reveal_with_fuel(groups_end, 4);
    }
    let m3 = match_after(s, e3);
    if m3.is_some() {
        return m3;
    }
    let m2 = match_after(s, e2);
    if m2.is_some() {
        return m2;
    }
    match_after(s, e1)
}

/// The first `n` of the dot-separated parts of `s`, joined by dots.
pub fn first_parts(s: &[u8], n: usize) -> (r: Vec<u8>)
    requires
        n >= 1,
    ensures
        r@ == before_dot(s@, n as nat),
{
    let mut out: Vec<u8> = Vec::new();
    let mut i: usize = 0;
    let mut left: usize = n;
    assert(s@.skip(0) =~= s@);
    assert(out@ + before_dot(s@, n as nat) =~= before_dot(s@, n as nat));
    while i < s.len()
        invariant
            i <= s@.len(),
            1 <= left <= n,
            out@ + before_dot(s@.skip(i as int), left as nat) == before_dot(s@, n as nat),
        decreases s@.len() - i,
    {
        assert(s@.skip(i as int).drop_first() =~= s@.skip(i + 1));
        if s[i] == DOT {
            if left <= 1 {
                assert(out@ + Seq::<u8>::empty() =~= out@);
                return out;
            }
            left = left - 1;
        }
        out.push(s[i]);
        assert(out@ =~= out@.drop_last() + seq![s@[i as int]]);
        i = i + 1;
    }
    assert(out@ + Seq::<u8>::empty() =~= out@);
    out
}

/// How many dots `s` holds.
pub fn count_dots(s: &[u8]) -> (r: usize)
    ensures
        r == dot_count(s@),
{
    let mut c: usize = 0;
    let mut i: usize = 0;
    while i < s.len()
        invariant
            i <= s@.len(),
            c == dot_count(s@.take(i as int)),
            c <= i,
        decreases s@.len() - i,
    {
        assert(s@.take(i + 1).drop_last() =~= s@.take(i as int));
        if s[i] == DOT {
            c = c + 1;
        }
        i = i + 1;
    }
    assert(s@.take(s@.len() as int) =~= s@);
    c
}

/// The keys that one line adds to the tally: its leading IP address, once
/// whole and once for each of its first one, two and three parts.
pub open spec fn line_keys(line: Seq<u8>) -> Multiset<Seq<u8>> {
    match ip_match_len(line) {
        Some(n) => {
            let ip = line.take(n);
            Multiset::empty().insert(ip).insert(before_dot(ip, 1)).insert(before_dot(ip, 2)).insert(
                before_dot(ip, 3),
            )
        },
        None => Multiset::empty(),
    }
}

/// The order the choice among prefixes goes by: more parts first, then more bytes.
pub open spec fn rank_le(a: Seq<u8>, b: Seq<u8>) -> bool {
    dot_count(a) < dot_count(b) || (dot_count(a) == dot_count(b) && a.len() <= b.len())
}

/// A prefix qualifies when it was counted at least half as often (rounded
/// down) as there were lines with more than white space.
pub open spec fn qualifies(tally: Multiset<Seq<u8>>, total: nat, k: Seq<u8>) -> bool {
    tally.count(k) > 0 && tally.count(k) >= total / 2
}

/// The keys are distinct, and each is counted as often as the tally holds
/// it; every key of the tally is among them.
spec fn keys_match(keys: Seq<Vec<u8>>, counts: Seq<usize>, tally: Multiset<Seq<u8>>) -> bool {
    &&& keys.len() == counts.len()
    &&& forall|i: int, j: int| 0 <= i < j < keys.len() ==> (#[trigger] keys[i])@ != (#[trigger] keys[j])@
    &&& forall|i: int|
        0 <= i < keys.len() ==> counts[i] == tally.count((#[trigger] keys[i])@) && counts[i] > 0
    &&& forall|k: Seq<u8>| #[trigger] tally.count(k) > 0 ==> exists|i: int| 0 <= i < keys.len() && keys[i]@ == k
}

proof fn lemma_add_four(t: Multiset<Seq<u8>>, total: nat, a: Seq<u8>, b: Seq<u8>, c: Seq<u8>, d: Seq<u8>)
    requires
        forall|k: Seq<u8>| #[trigger] t.count(k) <= 4 * total,
    ensures
        t.insert(a).insert(b).insert(c).insert(d) == t.add(
            Multiset::empty().insert(a).insert(b).insert(c).insert(d),
        ),
        forall|k: Seq<u8>| #[trigger] t.insert(a).insert(b).insert(c).insert(d).count(k) <= 4 * (total + 1),
{
    broadcast use vstd::multiset::group_multiset_axioms, vstd::multiset::group_multiset_properties;

    assert(t.insert(a).insert(b).insert(c).insert(d) =~= t.add(
        Multiset::empty().insert(a).insert(b).insert(c).insert(d),
    ));
    assert forall|k: Seq<u8>| #[trigger] t.insert(a).insert(b).insert(c).insert(d).count(k) <= 4 * (total + 1) by {
        assert(t.count(k) <= 4 * total);
    }
}

/// How often each leading IP prefix occurs over the lines seen, and how many
/// of those lines held more than white space.
pub struct PrefixCounter {
    keys: Vec<Vec<u8>>,
    counts: Vec<usize>,
    total: usize,
    tally: Ghost<Multiset<Seq<u8>>>,
}

impl PrefixCounter {
    /// Every prefix counted, as often as it was counted.
    pub closed spec fn tally(&self) -> Multiset<Seq<u8>> {
        self.tally@
    }

    /// How many lines with more than white space were seen.
    pub closed spec fn line_count(&self) -> nat {
        self.total as nat
    }

    closed spec fn keys_wf(&self) -> bool {
        keys_match(self.keys@, self.counts@, self.tally@)
    }

    pub closed spec fn wf(&self) -> bool {
        &&& self.keys_wf()
        &&& forall|k: Seq<u8>| #[trigger] self.tally@.count(k) <= 4 * self.total
    }

    /// A counter that has seen no line.
    pub fn new() -> (r: PrefixCounter)
        ensures
            r.wf(),
            r.tally() == Multiset::<Seq<u8>>::empty(),
            r.line_count() == 0,
    {
        broadcast use vstd::multiset::group_multiset_axioms;

        PrefixCounter { keys: Vec::new(), counts: Vec::new(), total: 0, tally: Ghost(Multiset::empty()) }
    }

    fn bump(&mut self, key: Vec<u8>)
        requires
            old(self).keys_wf(),
            old(self).tally@.count(key@) < usize::MAX,
        ensures
            final(self).keys_wf(),
            final(self).tally@ == old(self).tally@.insert(key@),
            final(self).total == old(self).total,
    {
        broadcast use vstd::multiset::group_multiset_axioms, vstd::multiset::group_multiset_properties;

        let ghost k = key@;
        let mut i: usize = 0;
        while i < self.keys.len()
            invariant
                i <= self.keys@.len(),
                self.keys_wf(),
                self.tally@ == old(self).tally@,
                self.total == old(self).total,
                self.keys == old(self).keys,
                self.counts == old(self).counts,
                k == key@,
                old(self).tally@.count(k) < usize::MAX,
                forall|j: int| 0 <= j < i ==> (#[trigger] self.keys@[j])@ != k,
            decreases self.keys@.len() - i,
        {
            if bytes_equal(&self.keys[i], &key) {
                let c = self.counts[i];
                assert(self.counts@[i as int] == self.tally@.count(self.keys@[i as int]@));
                self.counts.set(i, c + 1);
                self.tally = Ghost(self.tally@.insert(k));
                proof {
                    assert forall|k2: Seq<u8>| #[trigger] self.tally@.count(k2) > 0 implies exists|j: int|
                        0 <= j < self.keys@.len() && self.keys@[j]@ == k2 by {
                        if k2 != k {
                            assert(old(self).tally@.count(k2) > 0);
                            let j = choose|j: int|
                                0 <= j < old(self).keys@.len() && old(self).keys@[j]@ == k2;
                            assert(self.keys@[j]@ == k2);
                        } else {
                            assert(self.keys@[i as int]@ == k2);
                        }
                    }
                    assert forall|j: int| 0 <= j < self.keys@.len() implies self.counts@[j]
                        == self.tally@.count((#[trigger] self.keys@[j])@) && self.counts@[j] > 0 by {
                        if j != i {
                            assert(self.keys@[j]@ != self.keys@[i as int]@);
                        }
                    }
                }
                return;
            }
            i = i + 1;
        }
        proof {
            assert(self.tally@.count(k) == 0);
        }
        self.keys.push(key);
        self.counts.push(1);
        self.tally = Ghost(self.tally@.insert(k));
        proof {
            let n = self.keys@.len() - 1;
            assert forall|k2: Seq<u8>| #[trigger] self.tally@.count(k2) > 0 implies exists|j: int|
                0 <= j < self.keys@.len() && self.keys@[j]@ == k2 by {
                if k2 != k {
                    assert(old(self).tally@.count(k2) > 0);
                    let j = choose|j: int| 0 <= j < old(self).keys@.len() && old(self).keys@[j]@ == k2;
                    assert(self.keys@[j] == old(self).keys@[j]);
                } else {
                    assert(self.keys@[n]@ == k2);
                }
            }
            assert forall|a: int, b: int|
                0 <= a < b < self.keys@.len() implies (#[trigger] self.keys@[a])@ != (
                #[trigger] self.keys@[b])@ by {
                if b == n {
                    assert(self.keys@[a] == old(self).keys@[a]);
                } else {
                    assert(self.keys@[a] == old(self).keys@[a]);
                    assert(self.keys@[b] == old(self).keys@[b]);
                }
            }
            assert forall|j: int| 0 <= j < self.keys@.len() implies self.counts@[j] == self.tally@.count(
                (#[trigger] self.keys@[j])@,
            ) && self.counts@[j] > 0 by {
                if j < n {
                    assert(self.keys@[j] == old(self).keys@[j]);
                }
            }
        }
    }

    /// How many lines with more than white space were seen.
    pub fn lines_counted(&self) -> (r: usize)
        ensures
            r == self.line_count(),
    {
        self.total
    }

    /// Counts one line: a line of white space only is passed over; any other
    /// line is counted, and so are the prefixes of its leading IP address.
    pub fn add_line(&mut self, line: &str)
        requires
            old(self).wf(),
            old(self).line_count() < usize::MAX / 4,
        ensures
            final(self).wf(),
            trim(line@).len() == 0 ==> final(self).tally() == old(self).tally() && final(self).line_count()
                == old(self).line_count(),
            trim(line@).len() > 0 ==> final(self).tally() == old(self).tally().add(
                line_keys(encode_utf8(line@)),
            ) && final(self).line_count() == old(self).line_count() + 1,
    {
        broadcast use vstd::multiset::group_multiset_axioms, vstd::multiset::group_multiset_properties;

        if trim_str(line).is_empty() {
            return;
        }
        let ghost t0 = self.tally@;
        let ghost total0 = self.total as nat;
        proof {
            assert(4 * total0 + 4 <= usize::MAX) by (nonlinear_arith)
                requires total0 < usize::MAX / 4;
        }
        let bytes = line.as_bytes();
        match leading_ip_len(bytes) {
            None => {
                self.total = self.total + 1;
                proof {
                    assert(t0.add(line_keys(encode_utf8(line@))) =~= t0);
                    assert(self.keys_wf());
                    assert forall|k: Seq<u8>| #[trigger] self.tally@.count(k) <= 4 * self.total by {
                        assert(t0.count(k) <= 4 * total0);
                    }
                }
            },
            Some(n) => {
                let ip = first_bytes(bytes, n);
                let one_part = first_parts(&ip, 1);
                let two_parts = first_parts(&ip, 2);
                let three_parts = first_parts(&ip, 3);
                let ghost (g0, g1, g2, g3) = (ip@, one_part@, two_parts@, three_parts@);
                proof {
                    lemma_add_four(t0, total0, g0, g1, g2, g3);
                    assert(t0.insert(g0).count(g1) <= t0.count(g1) + 1);
                    assert(t0.insert(g0).insert(g1).count(g2) <= t0.count(g2) + 2);
                    assert(t0.insert(g0).insert(g1).insert(g2).count(g3) <= t0.count(g3) + 3);
                    assert(t0.count(g1) <= 4 * total0);
                    assert(t0.count(g2) <= 4 * total0);
                    assert(t0.count(g3) <= 4 * total0);
                }
                self.bump(ip);
                self.bump(one_part);
                self.bump(two_parts);
                self.bump(three_parts);
                self.total = self.total + 1;
                proof {
                    assert(self.keys_wf());
                }
            },
        }
    }

    /// The prefix to strip: among those that qualify, one with the most
    /// parts and, among those, the most bytes; `None` when none qualifies.
    pub fn most_common(&self) -> (r: Option<Vec<u8>>)
        requires
            self.wf(),
        ensures
            r is None <==> forall|k: Seq<u8>| !qualifies(self.tally(), self.line_count(), k),
            r matches Some(p) ==> qualifies(self.tally(), self.line_count(), p@) && forall|k: Seq<u8>|
                #[trigger] qualifies(self.tally(), self.line_count(), k) ==> rank_le(k, p@),
    {
        let half = self.total / 2;
        let mut best: Option<usize> = None;
        let mut best_dots: usize = 0;
        let mut best_len: usize = 0;
        let mut i: usize = 0;
        while i < self.keys.len()
            invariant
                self.wf(),
                half == self.total / 2,
                i <= self.keys@.len(),
                best is None ==> forall|j: int|
                    0 <= j < i ==> !qualifies(self.tally@, self.total as nat, (#[trigger] self.keys@[j])@),
                best matches Some(b) ==> {
                    &&& b < i
                    &&& qualifies(self.tally@, self.total as nat, self.keys@[b as int]@)
                    &&& best_dots == dot_count(self.keys@[b as int]@)
                    &&& best_len == self.keys@[b as int]@.len()
                    &&& forall|j: int|
                        0 <= j < i && qualifies(self.tally@, self.total as nat, (#[trigger] self.keys@[j])@)
                            ==> rank_le(self.keys@[j]@, self.keys@[b as int]@)
                },
            decreases self.keys@.len() - i,
        {
            if self.counts[i] >= half {
                let dots = count_dots(&self.keys[i]);
                let len = self.keys[i].len();
                match best {
                    None => {
                        best = Some(i);
                        best_dots = dots;
                        best_len = len;
                    },
                    Some(_) => {
                        if dots > best_dots || (dots == best_dots && len > best_len) {
                            best = Some(i);
                            best_dots = dots;
                            best_len = len;
                        }
                    },
                }
            }
            i = i + 1;
        }
        proof {
            assert forall|k: Seq<u8>| #[trigger] qualifies(self.tally@, self.total as nat, k) implies exists|
                j: int,
            | 0 <= j < self.keys@.len() && qualifies(self.tally@, self.total as nat, (#[trigger] self.keys@[j])@)
                && self.keys@[j]@ == k by {
                let j = choose|j: int| 0 <= j < self.keys@.len() && self.keys@[j]@ == k;
                assert(qualifies(self.tally@, self.total as nat, self.keys@[j]@));
            }
        }
        match best {
            None => {
                proof {
                    assert forall|k: Seq<u8>| !qualifies(self.tally(), self.line_count(), k) by {
                        if qualifies(self.tally(), self.line_count(), k) {
                            let j = choose|j: int| 0 <= j < self.keys@.len() && self.keys@[j]@ == k;
                            assert(!qualifies(self.tally@, self.total as nat, self.keys@[j]@));
                        }
                    }
                }
                None
            },
            Some(b) => {
                assert(qualifies(self.tally(), self.line_count(), self.keys@[b as int]@));
                Some(copy_key(&self.keys[b]))
            },
        }
    }
}

fn copy_key(k: &Vec<u8>) -> (r: Vec<u8>)
    ensures
        r@ == k@,
{
    let r = k.clone();
    proof {
        assert(r@ =~= k@);
    }
    r
}

/// The first `n` bytes of `s`.
fn first_bytes(s: &[u8], n: usize) -> (r: Vec<u8>)
    requires
        n <= s@.len(),
    ensures
        r@ == s@.take(n as int),
{
    let mut out: Vec<u8> = Vec::new();
    let mut i: usize = 0;
    while i < n
        invariant
            i <= n <= s@.len(),
            out@ == s@.take(i as int),
        decreases n - i,
    {
        out.push(s[i]);
        assert(out@ =~= s@.take(i + 1));
        i = i + 1;
    }
    out
}

/// Whether two byte strings are equal.
fn bytes_equal(a: &Vec<u8>, b: &Vec<u8>) -> (r: bool)
    ensures
        r == (a@ == b@),
{
    if a.len() != b.len() {
        return false;
    }
    let mut i: usize = 0;
    while i < a.len()
        invariant
            i <= a@.len() == b@.len(),
            a@.take(i as int) == b@.take(i as int),
        decreases a@.len() - i,
    {
        if a[i] != b[i] {
            return false;
        }
        assert(a@.take(i + 1) =~= a@.take(i as int).push(a@[i as int]));
        assert(b@.take(i + 1) =~= b@.take(i as int).push(b@[i as int]));
        i = i + 1;
    }
    assert(a@.take(a@.len() as int) =~= a@);
    assert(b@.take(b@.len() as int) =~= b@);
    true
}

} // verus!
