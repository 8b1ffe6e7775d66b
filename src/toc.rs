//! The outline: one node per outline record, in display order.
use vstd::prelude::*;
use crate::ident::{depth_of, extract_depth, match_key_of, strip_suffix};
use crate::text::chars_of;

verus! {

/// One node of the outline.
pub struct TocEntry {
    pub title: String,
    /// The record's identifier without its trailing `-<digits>` suffix; a
    /// highlight whose location equals it belongs to this node.
    pub match_id: String,
    /// Nesting depth: smaller is closer to the document root.
    pub depth: u32,
}

/// The nesting depths of an outline, in display order.
pub open spec fn levels_of(toc: Seq<TocEntry>) -> Seq<int> {
    toc.map_values(|e: TocEntry| e.depth as int)
}

/// The match keys of an outline, in display order.
pub open spec fn keys_of(toc: Seq<TocEntry>) -> Seq<Seq<char>> {
    toc.map_values(|e: TocEntry| e.match_id@)
}

/// A raw outline record, as stored: an identifier and a title.
pub struct OutlineEntry {
    pub content_id: String,
    pub title: String,
}

/// The extension markers that end a base file name, by priority.
pub open spec fn markers() -> Seq<Seq<char>> {
    seq![".xhtml"@, ".html"@, ".xml"@]
}

/// `m` occurs in `s` at position `p`.
pub open spec fn occurs_at(s: Seq<char>, m: Seq<char>, p: int) -> bool {
    0 <= p && p + m.len() <= s.len() && s.subrange(p, p + m.len()) == m
}

/// `p` is the first position at which `m` occurs in `s`.
pub open spec fn is_first_occurrence(s: Seq<char>, m: Seq<char>, p: int) -> bool {
    occurs_at(s, m, p) && forall|q: int| 0 <= q < p ==> !occurs_at(s, m, q)
}

/// `s` cut just after the first occurrence of `m`, if `m` occurs in it.
pub open spec fn cut_after(s: Seq<char>, m: Seq<char>) -> Option<Seq<char>> {
    if exists|p: int| is_first_occurrence(s, m, p) {
        let p = choose|p: int| is_first_occurrence(s, m, p);
        Some(s.take(p + m.len()))
    } else {
        None
    }
}

/// The base file of an identifier: cut after the first occurrence of the
/// first marker that occurs in it; the whole identifier where none does.
pub open spec fn base_file_of(s: Seq<char>) -> Seq<char> {
    if cut_after(s, markers()[0]) is Some {
        cut_after(s, markers()[0])->0
    } else if cut_after(s, markers()[1]) is Some {
        cut_after(s, markers()[1])->0
    } else if cut_after(s, markers()[2]) is Some {
        cut_after(s, markers()[2])->0
    } else {
        s
    }
}

/// Level under the first-occurrence strategy: 1 for the first record of its
/// base file, 2 for every later one.
pub open spec fn file_level(ids: Seq<Seq<char>>, i: int) -> u32 {
    if exists|j: int| 0 <= j < i && base_file_of(#[trigger] ids[j]) == base_file_of(ids[i]) {
        2
    } else {
        1
    }
}

/// The identifiers of a list of outline records.
pub open spec fn ids_of(entries: Seq<OutlineEntry>) -> Seq<Seq<char>> {
    entries.map_values(|e: OutlineEntry| e.content_id@)
}

proof fn lemma_first_occurrence_unique(s: Seq<char>, m: Seq<char>, p: int)
    requires
        is_first_occurrence(s, m, p),
    ensures
        cut_after(s, m) == Some(s.take(p + m.len())),
{
    let c = choose|c: int| is_first_occurrence(s, m, c);
    assert(is_first_occurrence(s, m, c));
    if c < p {
        assert(!occurs_at(s, m, c));
    } else if p < c {
        assert(!occurs_at(s, m, p));
    }
}

/// `s` cut after the first occurrence of `m`, if any.
fn find_cut(s: &str, cs: &Vec<char>, m: &Vec<char>) -> (r: Option<String>)
    requires
        cs@ == s@,
    ensures
        match r {
            Some(t) => cut_after(s@, m@) == Some(t@),
            None => cut_after(s@, m@) is None,
        },
{
    let n = cs.len();
    let k = m.len();
    if k > n {
        assert forall|p: int| !is_first_occurrence(s@, m@, p) by {}
        return None;
    }
    let mut p: usize = 0;
    while p <= n - k
        invariant
            k == m.len(),
            k <= n == cs.len(),
            cs@ == s@,
            forall|q: int| 0 <= q < p ==> !occurs_at(s@, m@, q),
        decreases n - p,
    {
        let mut j: usize = 0;
        while j < k && cs[p + j] == m[j]
            invariant
                j <= k == m.len(),
                p + k <= n == cs.len(),
                cs@ == s@,
                forall|q: int| 0 <= q < j ==> cs@[p + q] == m@[q],
            decreases k - j,
        {
            j += 1;
        }
        if j == k {
            proof {
                assert(s@.subrange(p as int, p + k) =~= m@);
                lemma_first_occurrence_unique(s@, m@, p as int);
            }
            return Some(s.substring_char(0, p + k).to_owned());
        }
        assert(!occurs_at(s@, m@, p as int)) by {
            assert(s@.subrange(p as int, p + k)[j as int] == cs@[p + j]);
            assert(cs@[p + j] != m@[j as int]);
        }
        p += 1;
    }
    assert forall|q: int| !is_first_occurrence(s@, m@, q) by {
        if q >= p {
            assert(!occurs_at(s@, m@, q));
        }
    }
    None
}

/// The identifier truncated just after the first occurrence of the first
/// extension marker (`.xhtml`, then `.html`, then `.xml`) that occurs in it;
/// the whole identifier where none does.
pub fn base_file(content_id: &str) -> (r: String)
    ensures
        r@ == base_file_of(content_id@),
{
    let cs = chars_of(content_id);
    let xhtml = chars_of(".xhtml");
    if let Some(t) = find_cut(content_id, &cs, &xhtml) {
        return t;
    }
    let html = chars_of(".html");
    if let Some(t) = find_cut(content_id, &cs, &html) {
        return t;
    }
    let xml = chars_of(".xml");
    if let Some(t) = find_cut(content_id, &cs, &xml) {
        return t;
    }
    content_id.to_owned()
}

/// The node of one outline record under the depth-suffix strategy.
pub fn toc_entry(content_id: &str, title: String) -> (r: TocEntry)
    ensures
        r.title == title,
        r.match_id@ == match_key_of(content_id@),
        r.depth == depth_of(content_id@),
{
    let match_id = strip_suffix(content_id);
    let depth = extract_depth(content_id);
    TocEntry { title, match_id, depth }
}

/// The outline under the depth-suffix strategy: one node per record, in the
/// same order, whose depth is given by the identifier's `-<digits>` suffix.
pub fn toc_by_depth(entries: &[OutlineEntry]) -> (r: Vec<TocEntry>)
    ensures
        r.len() == entries.len(),
        forall|i: int|
            0 <= i < entries.len() ==> {
                &&& (#[trigger] r[i]).title@ == entries[i].title@
                &&& r[i].match_id@ == match_key_of(entries[i].content_id@)
                &&& r[i].depth == depth_of(entries[i].content_id@)
            },
{
    let mut r: Vec<TocEntry> = Vec::new();
    let mut i: usize = 0;
    while i < entries.len()
        invariant
            i <= entries.len(),
            r.len() == i,
            forall|j: int|
                0 <= j < i ==> {
                    &&& (#[trigger] r[j]).title@ == entries[j].title@
                    &&& r[j].match_id@ == match_key_of(entries[j].content_id@)
                    &&& r[j].depth == depth_of(entries[j].content_id@)
                },
        decreases entries.len() - i,
    {
        let e = &entries[i];
        r.push(toc_entry(e.content_id.as_str(), e.title.clone()));
        i += 1;
    }
    r
}

/// The outline under the first-occurrence strategy: one node per record, in
/// the same order; the first record of each base file is at level 1, every
/// later record of that file at level 2.
pub fn toc_by_file(entries: &[OutlineEntry]) -> (r: Vec<TocEntry>)
    ensures
        r.len() == entries.len(),
        forall|i: int|
            0 <= i < entries.len() ==> {
                &&& (#[trigger] r[i]).title@ == entries[i].title@
                &&& r[i].match_id@ == match_key_of(entries[i].content_id@)
                &&& r[i].depth == file_level(ids_of(entries@), i)
            },
{
    let ghost ids = ids_of(entries@);
    let mut bases: Vec<String> = Vec::new();
    let mut r: Vec<TocEntry> = Vec::new();
    let mut i: usize = 0;
    while i < entries.len()
        invariant
            i <= entries.len(),
            ids == ids_of(entries@),
            r.len() == i,
            bases.len() == i,
            forall|j: int| 0 <= j < i ==> (#[trigger] bases[j])@ == base_file_of(ids[j]),
            forall|j: int|
                0 <= j < i ==> {
                    &&& (#[trigger] r[j]).title@ == entries[j].title@
                    &&& r[j].match_id@ == match_key_of(entries[j].content_id@)
                    &&& r[j].depth == file_level(ids, j)
                },
        decreases entries.len() - i,
    {
        let e = &entries[i];
        let b = base_file(e.content_id.as_str());
        let mut seen = false;
        let mut j: usize = 0;
        while j < i && !seen
            invariant
                j <= i == bases.len(),
                seen ==> exists|q: int| 0 <= q < i && (#[trigger] bases[q])@ == b@,
                !seen ==> forall|q: int| 0 <= q < j ==> (#[trigger] bases[q])@ != b@,
            decreases i - j + (if seen { 0int } else { 1int }),
        {
            if bases[j] == b {
                seen = true;
            } else {
                j += 1;
            }
        }
        let mut entry = toc_entry(e.content_id.as_str(), e.title.clone());
        entry.depth = if seen { 2 } else { 1 };
        proof {
            assert(ids[i as int] == e.content_id@);
            if seen {
                let q = choose|q: int| 0 <= q < i && (#[trigger] bases[q])@ == b@;
                assert(base_file_of(ids[q]) == base_file_of(ids[i as int]));
            } else {
                assert forall|q: int| 0 <= q < i implies base_file_of(#[trigger] ids[q])
                    != base_file_of(ids[i as int]) by {
                    assert(bases[q]@ == base_file_of(ids[q]));
                }
            }
        }
        r.push(entry);
        bases.push(b);
        i += 1;
    }
    r
}

} // verus!
