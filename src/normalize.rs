//! The normalizer: one raw line and an optional literal prefix rule give the
//! record to hash, or nothing when the line is skipped.

use vstd::prelude::*;

verus! {

/// The characters of Unicode's White_Space property, which `char::is_whitespace`
/// and the trimming methods of `str` go by.
pub open spec fn is_space(c: char) -> bool {
    let n = c as u32;
    (9 <= n <= 13) || n == 32 || n == 0x85 || n == 0xa0 || n == 0x1680 || (0x2000 <= n <= 0x200a)
        || n == 0x2028 || n == 0x2029 || n == 0x202f || n == 0x205f || n == 0x3000
}

/// `s` without its leading white space.
pub open spec fn trim_start(s: Seq<char>) -> Seq<char>
    decreases s.len(),
{
    if s.len() > 0 && is_space(s[0]) {
        trim_start(s.drop_first())
    } else {
        s
    }
}

/// `s` without its trailing white space.
pub open spec fn trim_end(s: Seq<char>) -> Seq<char>
    decreases s.len(),
{
    if s.len() > 0 && is_space(s.last()) {
        trim_end(s.drop_last())
    } else {
        s
    }
}

/// `s` without its leading and trailing white space.
pub open spec fn trim(s: Seq<char>) -> Seq<char> {
    trim_end(trim_start(s))
}

/// The text of an optional rule.
pub open spec fn rule_view(rule: Option<&str>) -> Option<Seq<char>> {
    match rule {
        Some(p) => Some(p@),
        None => None,
    }
}

/// The record that a line gives under a rule, or `None` when the line is skipped.
/// Emptiness is judged on the raw line, before the prefix comes off: a line
/// that is exactly the prefix gives the empty record.
pub open spec fn normalize(line: Seq<char>, rule: Option<Seq<char>>) -> Option<Seq<char>> {
    if trim(line).len() == 0 {
        None
    } else {
        match rule {
            None => Some(trim(line)),
            Some(p) => if p.is_prefix_of(line) {
                Some(trim_start(line.skip(p.len() as int)))
            } else {
                None
            },
        }
    }
}

/// Relies on `str::trim`: the slice without leading and trailing White_Space.
#[verifier::external_body]
pub(crate) fn trim_str(s: &str) -> (r: &str)
    ensures
        r@ == trim(s@),
{
    s.trim()
}

/// Relies on `str::trim_start`: the slice without leading White_Space.
#[verifier::external_body]
fn trim_start_str(s: &str) -> (r: &str)
    ensures
        r@ == trim_start(s@),
{
    s.trim_start()
}

/// Relies on `str::strip_prefix`: the rest of `s` when it starts with `p`.
#[verifier::external_body]
fn strip_prefix_str<'a>(s: &'a str, p: &str) -> (r: Option<&'a str>)
    ensures
        r is Some <==> p@.is_prefix_of(s@),
        r matches Some(t) ==> t@ == s@.skip(p@.len() as int),
{
    s.strip_prefix(p)
}

/// The record to hash for `line` under `rule`, or `None` when the line is skipped.
pub fn normalize_line<'a>(line: &'a str, rule: Option<&str>) -> (r: Option<&'a str>)
    ensures
        r is Some <==> normalize(line@, rule_view(rule)) is Some,
        r matches Some(t) ==> normalize(line@, rule_view(rule)) == Some(t@),
{
    let trimmed = trim_str(line);
    if trimmed.is_empty() {
        return None;
    }
    match rule {
        None => Some(trimmed),
        Some(p) => match strip_prefix_str(line, p) {
            Some(rest) => Some(trim_start_str(rest)),
            None => None,
        },
    }
}

proof fn lemma_trim_start_shape(s: Seq<char>)
    ensures
        trim_start(s).len() == 0 || !is_space(trim_start(s)[0]),
        trim_start(s).is_suffix_of(s),
    decreases s.len(),
{
    if s.len() > 0 && is_space(s[0]) {
        lemma_trim_start_shape(s.drop_first());
        assert(s.drop_first().is_suffix_of(s));
    } else {
        assert(s.is_suffix_of(s));
    }
}

proof fn lemma_trim_end_shape(s: Seq<char>)
    ensures
        trim_end(s).len() == 0 || !is_space(trim_end(s).last()),
        trim_end(s).is_prefix_of(s),
        s.len() > 0 && !is_space(s[0]) ==> trim_end(s).len() > 0,
        trim_end(trim_end(s)) == trim_end(s),
    decreases s.len(),
{
    if s.len() > 0 && is_space(s.last()) {
        lemma_trim_end_shape(s.drop_last());
    } else {
        assert(s.is_prefix_of(s));
    }
}

/// A record taken with no rule is trimmed already: normalizing it again with
/// no rule gives it back unchanged.
pub proof fn lemma_normalize_idempotent(line: Seq<char>)
    ensures
        normalize(line, None) matches Some(r) ==> normalize(r, None) == Some(r),
{
    let t = trim_start(line);
    lemma_trim_start_shape(line);
    lemma_trim_end_shape(t);
    let r = trim_end(t);
    if r.len() > 0 {
        assert(r[0] == t[0]);
        assert(trim_start(r) == r);
    } else {
        assert(trim_start(r) == r);
    }
}

/// Under a rule, a record has no leading white space, so trimming it changes
/// nothing; once the prefix is gone from its start, the same rule skips it;
/// and under the empty prefix it comes back unchanged.
pub proof fn lemma_normalize_stripped(line: Seq<char>, p: Seq<char>)
    ensures
        normalize(line, Some(p)) matches Some(r) ==> {
            &&& trim_start(r) == r
            &&& !p.is_prefix_of(r) ==> normalize(r, Some(p)) is None
            &&& p.len() == 0 ==> normalize(r, Some(p)) == Some(r)
        },
{
    lemma_trim_start_shape(line.skip(p.len() as int));
    if p.len() == 0 && normalize(line, Some(p)) is Some {
        let r = trim_start(line.skip(0));
        assert(line.skip(0) =~= line);
        lemma_trim_start_shape(line);
        lemma_trim_end_shape(trim_start(line));
        assert(r.len() > 0);
        lemma_trim_end_shape(r);
        assert(r.skip(0) =~= r);
        assert(p.is_prefix_of(r));
    }
}

} // verus!
