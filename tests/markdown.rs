use kobo_highlights::{generate_markdown, Book, Highlight, TocEntry};

fn make_toc(entries: &[(&str, &str, u32)]) -> Vec<TocEntry> {
    entries
        .iter()
        .map(|(title, match_id, depth)| TocEntry {
            title: title.to_string(),
            match_id: match_id.to_string(),
            depth: *depth,
        })
        .collect()
}

fn make_highlight(text: &str, content_id: &str) -> Highlight {
    Highlight {
        text: text.into(),
        annotation: None,
        chapter_content_id: content_id.into(),
        date_created: None,
    }
}

fn plain_book() -> Book {
    Book {
        content_id: "b".into(),
        title: "T".into(),
        author: None,
    }
}

#[test]
fn generate_markdown_basic_structure() {
    let book = Book {
        content_id: "book1".into(),
        title: "Test Book".into(),
        author: Some("Author Name".into()),
    };
    let toc = make_toc(&[
        ("Chapter I", "book!ch01.xhtml#ch01", 1),
        ("Section 1", "book!ch01.xhtml#sec1", 2),
    ]);
    let highlights = vec![make_highlight("Important text", "book!ch01.xhtml#sec1")];

    let md = generate_markdown(&book, &toc, &highlights);
    assert!(md.starts_with("# Test Book\n"));
    assert!(md.contains("**Author:** Author Name"));
    assert!(md.contains("## Chapter I\n"));
    assert!(md.contains("### Section 1\n"));
    assert!(md.contains("> Important text\n"));
}

#[test]
fn generate_markdown_parent_chapter_emitted_for_subsection_highlights() {
    let toc = make_toc(&[
        ("KAPITEL I", "book!ch01.xhtml#ch01", 1),
        ("1. Abschnitt", "book!ch01.xhtml#ch01_1", 2),
        ("KAPITEL II", "book!ch02.xhtml#ch02", 1),
        ("1. Abschnitt", "book!ch02.xhtml#ch02_1", 2),
    ]);
    let book = plain_book();
    let highlights = vec![make_highlight("text", "book!ch01.xhtml#ch01_1")];

    let md = generate_markdown(&book, &toc, &highlights);
    assert!(md.contains("## KAPITEL I\n"));
    assert!(md.contains("### 1. Abschnitt\n"));
    assert!(!md.contains("## KAPITEL II"));
}

#[test]
fn generate_markdown_multi_level_hierarchy() {
    let toc = make_toc(&[
        ("The Enchanted Forest", "book!forest.html#id_1", 1),
        ("I. The Crystal Cave", "book!forest.html#id_2", 2),
        ("1. The Hidden Door", "book!forest.html#id_3", 3),
        ("a) The Silver Key", "book!forest.html#id_4", 4),
        ("II. The Mountain Pass", "book!forest.html#id_5", 2),
    ]);
    let book = plain_book();
    let highlights = vec![make_highlight("deep text", "book!forest.html#id_4")];

    let md = generate_markdown(&book, &toc, &highlights);
    assert!(md.contains("## The Enchanted Forest\n"));
    assert!(md.contains("### I. The Crystal Cave\n"));
    assert!(md.contains("#### 1. The Hidden Door\n"));
    assert!(md.contains("##### a) The Silver Key\n"));
    assert!(!md.contains("II. The Mountain Pass"));
}

#[test]
fn generate_markdown_separate_files_hierarchy() {
    let toc = make_toc(&[
        ("Part One: The Dawn", "book!_1h_1.xhtml", 2),
        ("1. The Awakening", "book!_1h_2.xhtml", 3),
        ("2. The First Light", "book!_1h_3.xhtml", 3),
        ("Part Two: The Dusk", "book!_1h_7.xhtml", 2),
        ("1. The Fading Star", "book!_1h_8.xhtml", 3),
    ]);
    let book = plain_book();
    let highlights = vec![make_highlight("text", "book!_1h_2.xhtml")];

    let md = generate_markdown(&book, &toc, &highlights);
    assert!(md.contains("### Part One: The Dawn\n"));
    assert!(md.contains("#### 1. The Awakening\n"));
    assert!(!md.contains("Part Two: The Dusk"));
    assert!(!md.contains("2. The First Light"));
}

#[test]
fn generate_markdown_uncategorized_section() {
    let book = plain_book();
    let toc = make_toc(&[("Ch", "book!ch01.xhtml#ch01", 1)]);
    let highlights = vec![make_highlight("orphan", "book!unknown.xhtml#x")];

    let md = generate_markdown(&book, &toc, &highlights);
    assert!(md.contains("## Uncategorized\n"));
    assert!(md.contains("> orphan\n"));
}

#[test]
fn generate_markdown_no_uncategorized_when_all_matched() {
    let book = plain_book();
    let toc = make_toc(&[("Ch", "book!ch01.xhtml#ch01", 1)]);
    let highlights = vec![make_highlight("matched", "book!ch01.xhtml#ch01")];

    let md = generate_markdown(&book, &toc, &highlights);
    assert!(!md.contains("Uncategorized"));
}

#[test]
fn generate_markdown_highlight_with_annotation_and_date() {
    let book = plain_book();
    let toc = make_toc(&[("Ch", "id", 1)]);
    let highlights = vec![Highlight {
        text: "highlighted".into(),
        annotation: Some("my note".into()),
        chapter_content_id: "id".into(),
        date_created: Some("2024-06-01".into()),
    }];

    let md = generate_markdown(&book, &toc, &highlights);
    assert!(md.contains("> highlighted\n"));
    assert!(md.contains("**Note:** my note"));
    assert!(md.contains("*2024-06-01*"));
}

#[test]
fn two_level_scenario_exact_output() {
    let toc = make_toc(&[("KAPITEL I", "k1", 1), ("Abschnitt 1", "k2", 2)]);
    let highlights = vec![make_highlight("hi", "k2")];
    let md = generate_markdown(&plain_book(), &toc, &highlights);
    assert_eq!(
        md,
        "# T\n\n---\n\n## KAPITEL I\n\n### Abschnitt 1\n\n> hi\n\n"
    );
    assert!(!md.contains("Uncategorized"));
}

#[test]
fn unmatched_scenario_exact_output() {
    let toc = make_toc(&[("Chapter", "k1", 1)]);
    let highlights = vec![make_highlight("lost", "unknown")];
    let md = generate_markdown(&plain_book(), &toc, &highlights);
    assert_eq!(md, "# T\n\n---\n\n## Uncategorized\n\n> lost\n\n");
    assert!(!md.contains("Chapter"));
}

#[test]
fn four_level_scenario_exact_output() {
    let toc = make_toc(&[
        ("L1", "a", 1),
        ("L2", "b", 2),
        ("L3", "c", 3),
        ("L4", "d", 4),
        ("Sibling", "e", 4),
        ("Other", "f", 2),
    ]);
    let highlights = vec![make_highlight("x", "d")];
    let md = generate_markdown(&plain_book(), &toc, &highlights);
    assert_eq!(
        md,
        "# T\n\n---\n\n## L1\n\n### L2\n\n#### L3\n\n##### L4\n\n> x\n\n"
    );
}

#[test]
fn rendering_twice_is_identical() {
    let book = Book {
        content_id: "b".into(),
        title: "Book".into(),
        author: Some("A".into()),
    };
    let toc = make_toc(&[("One", "a", 1), ("Two", "b", 2)]);
    let highlights = vec![make_highlight("p", "b"), make_highlight("q", "zz")];
    let first = generate_markdown(&book, &toc, &highlights);
    let second = generate_markdown(&book, &toc, &highlights);
    assert_eq!(first, second);
}

#[test]
fn header_author_variants() {
    let toc: Vec<TocEntry> = Vec::new();
    let hs = vec![make_highlight("h", "nowhere")];
    let with_author = Book {
        content_id: "b".into(),
        title: "Title".into(),
        author: Some("Ann".into()),
    };
    let empty_author = Book {
        content_id: "b".into(),
        title: "Title".into(),
        author: Some(String::new()),
    };
    assert_eq!(
        generate_markdown(&with_author, &toc, &hs),
        "# Title\n\n**Author:** Ann\n\n---\n\n## Uncategorized\n\n> h\n\n"
    );
    assert_eq!(
        generate_markdown(&empty_author, &toc, &hs),
        "# Title\n\n---\n\n## Uncategorized\n\n> h\n\n"
    );
    assert_eq!(generate_markdown(&empty_author, &toc, &[]), "# Title\n\n---\n\n");
}

#[test]
fn untitled_node_is_skipped_with_its_highlights() {
    let toc = make_toc(&[("Top", "a", 1), ("", "b", 2)]);
    let hs = vec![make_highlight("inside", "b")];
    let md = generate_markdown(&plain_book(), &toc, &hs);
    assert_eq!(md, "# T\n\n---\n\n## Top\n\n");
}

#[test]
fn several_highlights_keep_their_order() {
    let toc = make_toc(&[("A", "a", 1), ("B", "b", 1)]);
    let hs = vec![
        make_highlight("1", "b"),
        make_highlight("2", "a"),
        make_highlight("3", "b"),
        make_highlight("4", "q"),
    ];
    let md = generate_markdown(&plain_book(), &toc, &hs);
    assert_eq!(
        md,
        "# T\n\n---\n\n## A\n\n> 2\n\n## B\n\n> 1\n\n> 3\n\n## Uncategorized\n\n> 4\n\n"
    );
}

#[test]
fn depth_zero_heading_and_walk_stop() {
    // depth 0 gives a single '#'; the backward walk stops after a root-level
    // ancestor, so the depth-0 node before it is not rendered
    let toc = make_toc(&[("Zero", "z", 0), ("Root", "r", 1), ("Leaf", "l", 2)]);
    let hs = vec![make_highlight("x", "l")];
    let md = generate_markdown(&plain_book(), &toc, &hs);
    assert_eq!(md, "# T\n\n---\n\n## Root\n\n### Leaf\n\n> x\n\n");
    let hs = vec![make_highlight("y", "r")];
    let md = generate_markdown(&plain_book(), &toc, &hs);
    assert_eq!(md, "# T\n\n---\n\n# Zero\n\n## Root\n\n> y\n\n");
}
