//! Outline identifiers: the match key and the depth encoded by a trailing
//! `-<digits>` suffix.
use vstd::prelude::*;
use crate::text::chars_of;

verus! {

pub open spec fn is_digit(c: char) -> bool {
    '0' <= c && c <= '9'
}

/// Length of the run of ASCII digits at the end of `s`.
pub open spec fn trailing_digits(s: Seq<char>) -> nat
    decreases s.len(),
{
    if s.len() > 0 && is_digit(s.last()) {
        1 + trailing_digits(s.drop_last())
    } else {
        0
    }
}

/// `s` ends in `-` followed by one or more ASCII digits.
pub open spec fn has_depth_suffix(s: Seq<char>) -> bool {
    let t = trailing_digits(s) as int;
    t > 0 && t < s.len() && s[s.len() - t - 1] == '-'
}

/// The digits of the suffix (meaningful only when `has_depth_suffix(s)`).
pub open spec fn suffix_digits(s: Seq<char>) -> Seq<char> {
    s.skip(s.len() - trailing_digits(s))
}

/// Decimal value of a run of digits.
pub open spec fn digits_value(d: Seq<char>) -> nat
    decreases d.len(),
{
    if d.len() == 0 {
        0
    } else {
        10 * digits_value(d.drop_last()) + (d.last() as nat - '0' as nat) as nat
    }
}

/// The match key: the identifier without its depth suffix.
pub open spec fn match_key_of(s: Seq<char>) -> Seq<char> {
    if has_depth_suffix(s) {
        s.take(s.len() - trailing_digits(s) - 1)
    } else {
        s
    }
}

/// The depth: the suffix's value, or 1 where there is no suffix or its value
/// does not fit in a `u32`.
pub open spec fn depth_of(s: Seq<char>) -> u32 {
    if has_depth_suffix(s) && digits_value(suffix_digits(s)) <= u32::MAX {
        digits_value(suffix_digits(s)) as u32
    } else {
        1
    }
}

proof fn lemma_trailing_split(s: Seq<char>, i: int)
    requires
        0 <= i <= s.len(),
        forall|k: int| i <= k < s.len() ==> is_digit(#[trigger] s[k]),
    ensures
        trailing_digits(s) == (s.len() - i) + trailing_digits(s.take(i)),
    decreases s.len() - i,
{
    if i == s.len() {
        assert(s.take(i) =~= s);
    } else {
        let t = s.drop_last();
        assert(t.take(i) =~= s.take(i));
        lemma_trailing_split(t, i);
    }
}

proof fn lemma_value_grows(d: Seq<char>, k: int)
    requires
        0 <= k <= d.len(),
    ensures
        digits_value(d.take(k)) <= digits_value(d),
    decreases d.len() - k,
{
    if k < d.len() {
        let t = d.drop_last();
        assert(t.take(k) =~= d.take(k));
        lemma_value_grows(t, k);
    } else {
        assert(d.take(k) =~= d);
    }
}

/// An identifier of the form `<prefix>-<digits>` has `<prefix>` as its match
/// key and the value of `<digits>` as its depth (when that value fits in a
/// `u32`).
pub proof fn lemma_suffixed_identifier(prefix: Seq<char>, digits: Seq<char>)
    requires
        digits.len() > 0,
        forall|k: int| 0 <= k < digits.len() ==> is_digit(#[trigger] digits[k]),
        digits_value(digits) <= u32::MAX,
    ensures
        match_key_of(prefix + seq!['-'] + digits) == prefix,
        depth_of(prefix + seq!['-'] + digits) == digits_value(digits),
{
    let s = prefix + seq!['-'] + digits;
    let p = prefix.len() as int;
    assert forall|k: int| p + 1 <= k < s.len() implies is_digit(#[trigger] s[k]) by {
        assert(s[k] == digits[k - p - 1]);
    }
    lemma_trailing_split(s, p + 1);
    assert(s.take(p + 1).last() == '-');
    assert(trailing_digits(s) == digits.len());
    assert(s[s.len() - digits.len() - 1] == '-');
    assert(suffix_digits(s) =~= digits);
    assert(s.take(p) =~= prefix);
}

/// An identifier without a `-<digits>` suffix is its own match key and has
/// depth 1.
pub proof fn lemma_plain_identifier(id: Seq<char>)
    requires
        !has_depth_suffix(id),
    ensures
        match_key_of(id) == id,
        depth_of(id) == 1,
{
}

/// Number of ASCII digits at the end of `cs`.
fn trailing_digit_count(cs: &Vec<char>) -> (t: usize)
    ensures
        t == trailing_digits(cs@),
        forall|k: int| cs.len() - t <= k < cs.len() ==> is_digit(#[trigger] cs@[k]),
{
    let mut i = cs.len();
    while i > 0 && '0' <= cs[i - 1] && cs[i - 1] <= '9'
        invariant
            i <= cs.len(),
            forall|k: int| i <= k < cs.len() ==> is_digit(#[trigger] cs@[k]),
        decreases i,
    {
        i -= 1;
    }
    proof {
        lemma_trailing_split(cs@, i as int);
        let p = cs@.take(i as int);
        if i > 0 {
            assert(p.last() == cs@[i - 1]);
        }
    }
    cs.len() - i
}

/// Removes a trailing `-<digits>` suffix; any other identifier is returned
/// unchanged.
pub fn strip_suffix(content_id: &str) -> (r: String)
    ensures
        r@ == match_key_of(content_id@),
{
    let cs = chars_of(content_id);
    let t = trailing_digit_count(&cs);
    if t > 0 && t < cs.len() && cs[cs.len() - t - 1] == '-' {
        content_id.substring_char(0, cs.len() - t - 1).to_owned()
    } else {
        content_id.to_owned()
    }
}

/// The depth given by a trailing `-<digits>` suffix; 1 where there is none, or
/// where its value does not fit in a `u32`.
pub fn extract_depth(content_id: &str) -> (r: u32)
    ensures
        r == depth_of(content_id@),
{
    let cs = chars_of(content_id);
    let t = trailing_digit_count(&cs);
    if !(t > 0 && t < cs.len() && cs[cs.len() - t - 1] == '-') {
        return 1;
    }
    let start = cs.len() - t;
    let ghost d = suffix_digits(cs@);
    assert(d =~= cs@.subrange(start as int, cs.len() as int));
    let mut v: u64 = 0;
    let mut k = start;
    while k < cs.len()
        invariant
            start <= k <= cs.len(),
            d == cs@.subrange(start as int, cs.len() as int),
            d == suffix_digits(content_id@),
            forall|j: int| start <= j < cs.len() ==> is_digit(#[trigger] cs@[j]),
            v == digits_value(d.take(k - start)),
            v <= u32::MAX,
        decreases cs.len() - k,
    {
        let c = cs[k];
        assert(is_digit(cs@[k as int]));
        let x = (c as u32 - '0' as u32) as u64;
        let next = v * 10 + x;
        proof {
            let a = d.take(k - start + 1);
            assert(a.drop_last() =~= d.take(k - start));
            assert(a.last() == c);
            assert(next == digits_value(a));
        }
        if next > u32::MAX as u64 {
            proof {
                lemma_value_grows(d, k - start + 1);
            }
            return 1;
        }
        v = next;
        k += 1;
    }
    assert(d.take(k - start) =~= d);
    v as u32
}

} // verus!
