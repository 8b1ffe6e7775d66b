//! Rendering highlights and the outline as a Markdown document.
use vstd::prelude::*;
use crate::assign::{Highlight, assign_highlights, bucket, locations_of};
use crate::closure::{in_closure, needed_headings};
use crate::toc::{TocEntry, keys_of, levels_of};
use crate::text::{chars_of, push_char, push_range, push_str};

verus! {

/// Index of the first line feed in `t`, or its length where it has none.
pub open spec fn line_end(t: Seq<char>) -> nat
    decreases t.len(),
{
    if t.len() == 0 || t[0] == '\n' {
        0
    } else {
        1 + line_end(t.drop_first())
    }
}

/// A line cut at a line feed, without the carriage return that preceded it.
pub open spec fn without_cr(l: Seq<char>) -> Seq<char> {
    if l.len() > 0 && l.last() == '\r' {
        l.drop_last()
    } else {
        l
    }
}

/// Each line of `t` as a Markdown quote line `> line\n`. Lines end at `\n` or
/// `\r\n`; a final line ending adds no empty line.
pub open spec fn quoted_lines(t: Seq<char>) -> Seq<char>
    decreases t.len(),
{
    if t.len() == 0 {
        Seq::empty()
    } else if line_end(t) < t.len() {
        "> "@ + without_cr(t.take(line_end(t) as int)) + seq!['\n'] + quoted_lines(
            t.skip(line_end(t) as int + 1),
        )
    } else {
        "> "@ + t + seq!['\n']
    }
}

/// The note paragraph: present only for a non-empty note.
pub open spec fn note_md(note: Option<String>) -> Seq<char> {
    match note {
        Some(n) => if n@.len() > 0 {
            "\n**Note:** "@ + n@ + seq!['\n']
        } else {
            Seq::empty()
        },
        None => Seq::empty(),
    }
}

/// The italic date paragraph: present only for a non-empty date.
pub open spec fn date_md(date: Option<String>) -> Seq<char> {
    match date {
        Some(d) => if d@.len() > 0 {
            "\n*"@ + d@ + "*\n"@
        } else {
            Seq::empty()
        },
        None => Seq::empty(),
    }
}

/// A highlight in Markdown: its quoted text, then its note, then its date.
pub open spec fn highlight_md(h: Highlight) -> Seq<char> {
    quoted_lines(h.text@) + note_md(h.annotation) + date_md(h.date_created)
}

/// An empty note or date is left out, exactly as an absent one is: such a
/// highlight renders as its quoted text alone.
pub proof fn lemma_empty_fields_omitted(h: Highlight)
    requires
        h.annotation is None || h.annotation->0@.len() == 0,
        h.date_created is None || h.date_created->0@.len() == 0,
    ensures
        highlight_md(h) == quoted_lines(h.text@),
{
    assert(highlight_md(h) =~= quoted_lines(h.text@));
}

proof fn lemma_line_end(t: Seq<char>, m: int)
    requires
        0 <= m <= t.len(),
        forall|k: int| 0 <= k < m ==> t[k] != '\n',
        m == t.len() || t[m] == '\n',
    ensures
        line_end(t) == m,
    decreases m,
{
    if m > 0 {
        let u = t.drop_first();
        assert forall|k: int| 0 <= k < m - 1 implies u[k] != '\n' by {
            assert(u[k] == t[k + 1]);
        }
        if m < t.len() {
            assert(u[m - 1] == t[m]);
        }
        lemma_line_end(u, m - 1);
    }
}

/// Appends `> line\n` for each line of `cs`.
fn push_quoted_lines(out: &mut String, cs: &Vec<char>)
    ensures
        final(out)@ == old(out)@ + quoted_lines(cs@),
{
    let ghost start = out@;
    let n = cs.len();
    let mut p: usize = 0;
    assert(cs@.skip(0) =~= cs@);
    while p < n
        invariant
            p <= n == cs.len(),
            out@ + quoted_lines(cs@.skip(p as int)) == start + quoted_lines(cs@),
        decreases n - p,
    {
        let ghost rest = cs@.skip(p as int);
        let mut e = p;
        while e < n && cs[e] != '\n'
            invariant
                p <= e <= n == cs.len(),
                forall|k: int| p <= k < e ==> cs@[k] != '\n',
            decreases n - e,
        {
            e += 1;
        }
        proof {
            lemma_line_end(rest, e - p);
        }
        let ghost before = out@;
        push_str(out, "> ");
        if e < n {
            let mut hi = e;
            if hi > p && cs[hi - 1] == '\r' {
                hi -= 1;
            }
            push_range(out, cs, p, hi);
            push_char(out, '\n');
            proof {
                let line = rest.take(e - p);
                assert(line =~= cs@.subrange(p as int, e as int));
                assert(without_cr(line) =~= cs@.subrange(p as int, hi as int));
                assert(rest.skip(e - p + 1) =~= cs@.skip(e + 1));
                assert(out@ == before + ("> "@ + without_cr(line) + seq!['\n']));
                assert(quoted_lines(rest) == "> "@ + without_cr(line) + seq!['\n'] + quoted_lines(cs@.skip(e + 1)));
                assert(out@ + quoted_lines(cs@.skip(e + 1)) =~= before + quoted_lines(rest));
            }
            p = e + 1;
        } else {
            push_range(out, cs, p, n);
            push_char(out, '\n');
            proof {
                assert(rest =~= cs@.subrange(p as int, n as int));
                assert(cs@.skip(n as int) =~= Seq::<char>::empty());
                assert(out@ + quoted_lines(cs@.skip(n as int)) =~= before + quoted_lines(rest));
            }
            p = n;
        }
    }
    assert(cs@.skip(p as int) =~= Seq::<char>::empty());
    assert(out@ =~= start + quoted_lines(cs@));
}

/// Renders one highlight: each line of its text quoted, then a non-empty note
/// as a bold-labelled paragraph, then a non-empty creation date in italics.
pub fn format_highlight(h: &Highlight) -> (r: String)
    ensures
        r@ == highlight_md(*h),
{
    let mut out = String::new();
    let cs = chars_of(h.text.as_str());
    push_quoted_lines(&mut out, &cs);
    let ghost after_text = out@;
    if let Some(note) = &h.annotation {
        if !note.as_str().is_empty() {
            push_str(&mut out, "\n**Note:** ");
            push_str(&mut out, note.as_str());
            push_char(&mut out, '\n');
        }
    }
    assert(out@ =~= after_text + note_md(h.annotation));
    let ghost after_note = out@;
    if let Some(date) = &h.date_created {
        if !date.as_str().is_empty() {
            push_str(&mut out, "\n*");
            push_str(&mut out, date.as_str());
            push_str(&mut out, "*\n");
        }
    }
    assert(out@ =~= after_note + date_md(h.date_created));
    out
}

/// The document a book's highlights are exported to.
pub struct Book {
    /// The identifier the book's outline and highlights are stored under.
    pub content_id: String,
    pub title: String,
    pub author: Option<String>,
}

/// The author line: present only for a non-empty author.
pub open spec fn author_md(author: Option<String>) -> Seq<char> {
    match author {
        Some(a) => if a@.len() > 0 {
            "**Author:** "@ + a@ + "\n\n"@
        } else {
            Seq::empty()
        },
        None => Seq::empty(),
    }
}

/// Title heading, author line and separator.
pub open spec fn header_md(book: Book) -> Seq<char> {
    "# "@ + book.title@ + "\n\n"@ + author_md(book.author) + "---\n\n"@
}

/// A node's heading: one `#` more than its depth, since the single `#` is the
/// document title's.
pub open spec fn heading_md(e: TocEntry) -> Seq<char> {
    Seq::new((e.depth + 1) as nat, |k: int| '#') + seq![' '] + e.title@ + "\n\n"@
}

/// The highlights at positions `idx`, in that order, each followed by a blank
/// line.
pub open spec fn blocks_md(hs: Seq<Highlight>, idx: Seq<usize>) -> Seq<char>
    decreases idx.len(),
{
    if idx.len() == 0 {
        Seq::empty()
    } else {
        blocks_md(hs, idx.drop_last()) + highlight_md(hs[idx.last() as int]) + seq!['\n']
    }
}

/// Which nodes have highlights of their own.
pub open spec fn direct_of(toc: Seq<TocEntry>, hs: Seq<Highlight>) -> Seq<bool> {
    Seq::new(toc.len(), |i: int| bucket(keys_of(toc), locations_of(hs), i).len() > 0)
}

/// Node `i`'s part of the document: its heading and its highlights, where it
/// is in the closure and has a title; nothing otherwise.
pub open spec fn section_md(toc: Seq<TocEntry>, hs: Seq<Highlight>, i: int) -> Seq<char> {
    if in_closure(levels_of(toc), direct_of(toc, hs), i) && toc[i].title@.len() > 0 {
        heading_md(toc[i]) + blocks_md(hs, bucket(keys_of(toc), locations_of(hs), i))
    } else {
        Seq::empty()
    }
}

/// The parts of the first `n` nodes, in display order.
pub open spec fn body_md(toc: Seq<TocEntry>, hs: Seq<Highlight>, n: int) -> Seq<char>
    decreases n,
{
    if n <= 0 {
        Seq::empty()
    } else {
        body_md(toc, hs, n - 1) + section_md(toc, hs, n - 1)
    }
}

/// The section of highlights bound to no node, where there are any.
pub open spec fn uncategorized_md(toc: Seq<TocEntry>, hs: Seq<Highlight>) -> Seq<char> {
    let rest = bucket(keys_of(toc), locations_of(hs), -1);
    if rest.len() > 0 {
        "## Uncategorized\n\n"@ + blocks_md(hs, rest)
    } else {
        Seq::empty()
    }
}

/// The whole document.
pub open spec fn markdown_of(book: Book, toc: Seq<TocEntry>, hs: Seq<Highlight>) -> Seq<char> {
    header_md(book) + body_md(toc, hs, toc.len() as int) + uncategorized_md(toc, hs)
}

/// Rendering depends on its three inputs alone: two renderings of the same
/// book, outline and highlights are identical.
pub proof fn lemma_render_deterministic(
    book: Book,
    toc: Seq<TocEntry>,
    hs: Seq<Highlight>,
    first: Seq<char>,
    second: Seq<char>,
)
    requires
        first == markdown_of(book, toc, hs),
        second == markdown_of(book, toc, hs),
    ensures
        first == second,
{
}

/// A node outside the closure contributes nothing to the document: no
/// heading and no highlights.
pub proof fn lemma_unrendered_outside_closure(toc: Seq<TocEntry>, hs: Seq<Highlight>, k: int)
    requires
        0 <= k < toc.len(),
        !in_closure(levels_of(toc), direct_of(toc, hs), k),
    ensures
        section_md(toc, hs, k) == Seq::<char>::empty(),
{
}

proof fn lemma_bucket_bounded(keys: Seq<Seq<char>>, locs: Seq<Seq<char>>, i: int)
    ensures
        forall|k: int|
            0 <= k < bucket(keys, locs, i).len() ==> #[trigger] bucket(keys, locs, i)[k]
                < locs.len(),
    decreases locs.len(),
{
    if locs.len() > 0 {
        lemma_bucket_bounded(keys, locs.drop_last(), i);
        let prev = bucket(keys, locs.drop_last(), i);
        let b = bucket(keys, locs, i);
        assert forall|k: int| 0 <= k < b.len() implies #[trigger] b[k] < locs.len() by {
            if k < prev.len() {
                assert(b[k] == prev[k]);
            }
        }
    }
}

/// Appends the highlights at positions `idx`, each followed by a blank line.
fn push_blocks(out: &mut String, hs: &[Highlight], idx: &Vec<usize>)
    requires
        forall|k: int| 0 <= k < idx.len() ==> #[trigger] idx[k] < hs.len(),
    ensures
        final(out)@ == old(out)@ + blocks_md(hs@, idx@),
{
    let ghost start = out@;
    let mut k: usize = 0;
    while k < idx.len()
        invariant
            k <= idx.len(),
            forall|j: int| 0 <= j < idx.len() ==> #[trigger] idx[j] < hs.len(),
            out@ == start + blocks_md(hs@, idx@.take(k as int)),
        decreases idx.len() - k,
    {
        let b = format_highlight(&hs[idx[k]]);
        push_str(out, b.as_str());
        push_char(out, '\n');
        proof {
            let t = idx@.take(k + 1);
            assert(t.drop_last() =~= idx@.take(k as int));
        }
        k += 1;
    }
    assert(idx@.take(k as int) =~= idx@);
}

/// Appends a node's heading.
fn push_heading(out: &mut String, e: &TocEntry)
    ensures
        final(out)@ == old(out)@ + heading_md(*e),
{
    let ghost start = out@;
    let count: u64 = e.depth as u64 + 1;
    let mut c: u64 = 0;
    while c < count
        invariant
            c <= count == e.depth + 1,
            out@ == start + Seq::new(c as nat, |k: int| '#'),
        decreases count - c,
    {
        push_char(out, '#');
        assert(Seq::new((c + 1) as nat, |k: int| '#') =~= Seq::new(c as nat, |k: int| '#').push('#'));
        c += 1;
    }
    push_char(out, ' ');
    push_str(out, e.title.as_str());
    push_str(out, "\n\n");
    assert(out@ =~= start + heading_md(*e));
}

/// Renders a book's highlights as a Markdown document: a title heading, the
/// author line and a separator; then, in outline order, the heading of every
/// node that has highlights or is an ancestor of one that has, each followed
/// by its own highlights; then the highlights that bind to no node under an
/// "Uncategorized" heading.
pub fn generate_markdown(book: &Book, toc: &[TocEntry], highlights: &[Highlight]) -> (r: String)
    ensures
        r@ == markdown_of(*book, toc@, highlights@),
{
    let ghost keys = keys_of(toc@);
    let ghost locs = locations_of(highlights@);
    let mut md = String::new();
    push_str(&mut md, "# ");
    push_str(&mut md, book.title.as_str());
    push_str(&mut md, "\n\n");
    if let Some(author) = &book.author {
        if !author.as_str().is_empty() {
            push_str(&mut md, "**Author:** ");
            push_str(&mut md, author.as_str());
            push_str(&mut md, "\n\n");
        }
    }
    push_str(&mut md, "---\n\n");
    assert(md@ =~= header_md(*book));

    let (assigned, uncategorized) = assign_highlights(toc, highlights);
    let mut direct: Vec<bool> = Vec::new();
    let mut i: usize = 0;
    while i < toc.len()
        invariant
            i <= toc.len() == assigned.len(),
            direct.len() == i,
            forall|j: int| 0 <= j < i ==> #[trigger] direct[j] == (assigned[j].len() > 0),
        decreases toc.len() - i,
    {
        direct.push(assigned[i].len() > 0);
        i += 1;
    }
    assert(direct@ =~= direct_of(toc@, highlights@));
    let needed = needed_headings(toc, &direct);

    let mut i: usize = 0;
    while i < toc.len()
        invariant
            i <= toc.len() == assigned.len() == needed.len(),
            keys == keys_of(toc@),
            locs == locations_of(highlights@),
            locs.len() == highlights.len(),
            forall|j: int| 0 <= j < toc.len() ==> #[trigger] assigned[j]@ == bucket(keys, locs, j),
            forall|j: int|
                0 <= j < toc.len() ==> #[trigger] needed[j] == in_closure(
                    levels_of(toc@),
                    direct_of(toc@, highlights@),
                    j,
                ),
            md@ == header_md(*book) + body_md(toc@, highlights@, i as int),
        decreases toc.len() - i,
    {
        let ghost before = md@;
        if needed[i] && !toc[i].title.as_str().is_empty() {
            push_heading(&mut md, &toc[i]);
            proof {
                lemma_bucket_bounded(keys, locs, i as int);
            }
            push_blocks(&mut md, highlights, &assigned[i]);
        }
        assert(md@ =~= before + section_md(toc@, highlights@, i as int));
        i += 1;
    }
    let ghost before = md@;
    if uncategorized.len() > 0 {
        push_str(&mut md, "## Uncategorized\n\n");
        proof {
            lemma_bucket_bounded(keys, locs, -1);
        }
        push_blocks(&mut md, highlights, &uncategorized);
    }
    assert(md@ =~= before + uncategorized_md(toc@, highlights@));
    md
}

} // verus!
