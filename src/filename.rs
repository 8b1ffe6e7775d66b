//! File names derived from book titles.
use vstd::prelude::*;
use crate::text::{chars_of, push_range};

verus! {

/// Whether a character is alphabetic or numeric in Unicode's sense.
pub uninterp spec fn alphanumeric(c: char) -> bool;

/// Whether a character has Unicode's White_Space property.
pub uninterp spec fn whitespace(c: char) -> bool;

/// Relies on `char::is_alphanumeric`: the answer depends on the character
/// alone.
#[verifier::external_body]
fn is_alphanumeric(c: char) -> (r: bool)
    ensures
        r == alphanumeric(c),
{
    c.is_alphanumeric()
}

/// Relies on `char::is_whitespace`: the answer depends on the character alone.
#[verifier::external_body]
fn is_whitespace(c: char) -> (r: bool)
    ensures
        r == whitespace(c),
{
    c.is_whitespace()
}

/// The characters a file name keeps: alphanumerics, spaces and dashes.
pub open spec fn is_kept(c: char) -> bool {
    alphanumeric(c) || c == ' ' || c == '-'
}

/// `s` without the characters that a file name does not keep.
pub open spec fn kept(s: Seq<char>) -> Seq<char>
    decreases s.len(),
{
    if s.len() == 0 {
        Seq::empty()
    } else if is_kept(s.last()) {
        kept(s.drop_last()).push(s.last())
    } else {
        kept(s.drop_last())
    }
}

/// `s` without its leading whitespace.
pub open spec fn trim_start(s: Seq<char>) -> Seq<char>
    decreases s.len(),
{
    if s.len() > 0 && whitespace(s[0]) {
        trim_start(s.drop_first())
    } else {
        s
    }
}

/// `s` without its trailing whitespace.
pub open spec fn trim_end(s: Seq<char>) -> Seq<char>
    decreases s.len(),
{
    if s.len() > 0 && whitespace(s.last()) {
        trim_end(s.drop_last())
    } else {
        s
    }
}

proof fn lemma_trim_start(s: Seq<char>, m: int)
    requires
        0 <= m <= s.len(),
        forall|k: int| 0 <= k < m ==> whitespace(#[trigger] s[k]),
        m == s.len() || !whitespace(s[m]),
    ensures
        trim_start(s) == s.skip(m),
    decreases m,
{
    if m == 0 {
        assert(s.skip(0) =~= s);
    } else {
        let u = s.drop_first();
        assert forall|k: int| 0 <= k < m - 1 implies whitespace(#[trigger] u[k]) by {
            assert(u[k] == s[k + 1]);
        }
        if m < s.len() {
            assert(u[m - 1] == s[m]);
        }
        lemma_trim_start(u, m - 1);
        assert(u.skip(m - 1) =~= s.skip(m));
    }
}

proof fn lemma_trim_end(s: Seq<char>, m: int)
    requires
        0 <= m <= s.len(),
        forall|k: int| m <= k < s.len() ==> whitespace(#[trigger] s[k]),
        m == 0 || !whitespace(s[m - 1]),
    ensures
        trim_end(s) == s.take(m),
    decreases s.len() - m,
{
    if m == s.len() {
        assert(s.take(m) =~= s);
    } else {
        let u = s.drop_last();
        lemma_trim_end(u, m);
        assert(u.take(m) =~= s.take(m));
    }
}

/// Keeps the alphanumeric characters, spaces and dashes of `name`, then trims
/// whitespace from both ends.
pub fn sanitize_filename(name: &str) -> (r: String)
    ensures
        r@ == trim_end(trim_start(kept(name@))),
{
    let cs = chars_of(name);
    let mut ks: Vec<char> = Vec::new();
    let mut k: usize = 0;
    while k < cs.len()
        invariant
            k <= cs.len(),
            ks@ == kept(cs@.take(k as int)),
        decreases cs.len() - k,
    {
        let c = cs[k];
        proof {
            let t = cs@.take(k + 1);
            assert(t.drop_last() =~= cs@.take(k as int));
        }
        if is_alphanumeric(c) || c == ' ' || c == '-' {
            ks.push(c);
        }
        k += 1;
    }
    assert(cs@.take(k as int) =~= cs@);
    let n = ks.len();
    let mut lo: usize = 0;
    while lo < n && is_whitespace(ks[lo])
        invariant
            lo <= n == ks.len(),
            forall|j: int| 0 <= j < lo ==> whitespace(#[trigger] ks@[j]),
        decreases n - lo,
    {
        lo += 1;
    }
    proof {
        lemma_trim_start(ks@, lo as int);
    }
    let ghost rest = ks@.skip(lo as int);
    let mut hi: usize = n;
    while hi > lo && is_whitespace(ks[hi - 1])
        invariant
            lo <= hi <= n == ks.len(),
            forall|j: int| hi <= j < n ==> whitespace(#[trigger] ks@[j]),
        decreases hi,
    {
        hi -= 1;
    }
    proof {
        assert forall|j: int| hi - lo <= j < rest.len() implies whitespace(#[trigger] rest[j]) by {
            assert(rest[j] == ks@[j + lo]);
        }
        if hi > lo {
            assert(rest[hi - lo - 1] == ks@[hi - 1]);
        }
        lemma_trim_end(rest, hi - lo);
        assert(rest.take(hi - lo) =~= ks@.subrange(lo as int, hi as int));
    }
    let mut out = String::new();
    push_range(&mut out, &ks, lo, hi);
    assert(out@ =~= ks@.subrange(lo as int, hi as int));
    out
}

} // verus!
