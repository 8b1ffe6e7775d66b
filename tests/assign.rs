use kobo_highlights::{assign_highlights, Highlight, TocEntry};

fn make_toc(entries: &[(&str, &str, u32)]) -> Vec<TocEntry> {
    entries
        .iter()
        .map(|(title, match_id, depth)| TocEntry {
            title: title.to_string(),
            match_id: match_id.to_string(),
            depth: *depth,
        })
        .collect()
}

fn make_highlight(text: &str, content_id: &str) -> Highlight {
    Highlight {
        text: text.into(),
        annotation: None,
        chapter_content_id: content_id.into(),
        date_created: None,
    }
}

#[test]
fn assign_highlights_exact_match() {
    let toc = make_toc(&[
        ("Chapter I", "book!ch01.xhtml#ch01", 1),
        ("Section 1", "book!ch01.xhtml#ch01_1", 2),
    ]);
    let highlights = vec![make_highlight("hello", "book!ch01.xhtml#ch01_1")];

    let (assigned, uncategorized) = assign_highlights(&toc, &highlights);
    assert_eq!(assigned[1].len(), 1);
    assert!(uncategorized.is_empty());
}

#[test]
fn assign_highlights_unmatched_goes_to_uncategorized() {
    let toc = make_toc(&[("Chapter I", "book!ch01.xhtml#ch01", 1)]);
    let highlights = vec![make_highlight("hello", "book!ch99.xhtml#unknown")];

    let (assigned, uncategorized) = assign_highlights(&toc, &highlights);
    assert!(assigned.iter().all(|b| b.is_empty()));
    assert_eq!(uncategorized.len(), 1);
}

#[test]
fn assign_highlights_multiple_to_same_section() {
    let toc = make_toc(&[("Section", "book!ch01.xhtml#sec1", 3)]);
    let highlights = vec![
        make_highlight("first", "book!ch01.xhtml#sec1"),
        make_highlight("second", "book!ch01.xhtml#sec1"),
    ];

    let (assigned, _) = assign_highlights(&toc, &highlights);
    assert_eq!(assigned[0].len(), 2);
}

#[test]
fn assign_highlights_first_key_wins_and_order_kept() {
    let toc = make_toc(&[("A", "k", 1), ("B", "j", 1), ("C", "k", 2)]);
    let highlights = vec![
        make_highlight("1", "k"),
        make_highlight("2", "x"),
        make_highlight("3", "j"),
        make_highlight("4", "k"),
        make_highlight("5", "K"),
    ];
    let (assigned, uncategorized) = assign_highlights(&toc, &highlights);
    assert_eq!(assigned, vec![vec![0, 3], vec![2], vec![]]);
    assert_eq!(uncategorized, vec![1, 4]);
}

#[test]
fn assign_highlights_is_total() {
    let toc = make_toc(&[("A", "a", 1), ("B", "b", 2)]);
    let highlights = vec![
        make_highlight("1", "a"),
        make_highlight("2", "z"),
        make_highlight("3", "b"),
        make_highlight("4", "b"),
    ];
    let (assigned, uncategorized) = assign_highlights(&toc, &highlights);
    let total: usize = assigned.iter().map(|b| b.len()).sum::<usize>() + uncategorized.len();
    assert_eq!(total, highlights.len());
}

#[test]
fn assign_highlights_empty_inputs() {
    let (assigned, uncategorized) = assign_highlights(&[], &[make_highlight("t", "a")]);
    assert!(assigned.is_empty());
    assert_eq!(uncategorized, vec![0]);
    let toc = make_toc(&[("A", "a", 1)]);
    let (assigned, uncategorized) = assign_highlights(&toc, &[]);
    assert_eq!(assigned, vec![Vec::<usize>::new()]);
    assert!(uncategorized.is_empty());
}
