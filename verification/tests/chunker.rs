use herbalist::indexer::chunker::{chunk, merge_tiny, parse_heading, Chunk};

fn pairs(body: &str) -> Vec<(String, String)> {
    chunk(body)
        .into_iter()
        .map(|c| (c.heading, c.content))
        .collect()
}

fn heading(line: &str) -> Option<String> {
    let chars: Vec<char> = line.chars().collect();
    parse_heading(&chars)
}

fn pair(heading: &str, content: &str) -> (String, String) {
    (heading.to_owned(), content.to_owned())
}

#[test]
fn test_chunk_basic() {
    let body = "Intro text.\n# Section One\nContent one.\n## Subsection\nContent two.";
    let chunks = chunk(body);
    assert_eq!(chunks.len(), 3);
    assert_eq!(chunks[0].heading, "");
    assert!(chunks[0].content.contains("Intro"));
    assert_eq!(chunks[1].heading, "Section One");
    assert_eq!(chunks[2].heading, "Subsection");
}

#[test]
fn test_no_headings() {
    let body = "Just plain content.";
    let chunks = chunk(body);
    assert_eq!(chunks.len(), 1);
    assert_eq!(chunks[0].heading, "");
    assert!(chunks[0].content.contains("plain"));
}

#[test]
fn chunks_hold_their_sections() {
    let body = "Intro text.\n# Section One\nContent one.\n## Subsection\nContent two.";
    assert_eq!(
        pairs(body),
        vec![
            pair("", "Intro text."),
            pair("Section One", "Content one."),
            pair("Subsection", "Content two."),
        ]
    );
}

#[test]
fn chunks_keep_the_order_of_headings() {
    let body = "# A\nfirst section text\n## B\nx\n# C\n\n# A\nlast section text";
    let found: Vec<String> = pairs(body).into_iter().map(|(h, _)| h).collect();
    // Before the first heading stands nothing; B is too short, C is empty.
    assert_eq!(found, vec!["", "A", "A"]);
    let body = "intro\n# A\nfirst section text\n## B\nsecond section text\n# A\nthird section text";
    let found: Vec<String> = pairs(body).into_iter().map(|(h, _)| h).collect();
    assert_eq!(found, vec!["", "A", "B", "A"]);
}

#[test]
fn headings() {
    assert_eq!(heading("# One "), Some("One".to_owned()));
    assert_eq!(heading("##   Two  "), Some("Two".to_owned()));
    assert_eq!(heading("### Three"), None);
    assert_eq!(heading("#NoBlank"), None);
    assert_eq!(heading(" # Indented"), None);
    assert_eq!(heading("# "), None);
    assert_eq!(heading("#"), None);
    assert_eq!(heading(""), None);
}

#[test]
fn deeper_headings_stay_in_their_section() {
    assert_eq!(
        pairs("# A\ntext of the section\n### deeper\nmore text"),
        vec![
            pair("", ""),
            pair("A", "text of the section\n### deeper\nmore text"),
        ]
    );
}

#[test]
fn empty_body_is_one_empty_chunk() {
    assert_eq!(pairs(""), vec![pair("", "")]);
    assert_eq!(pairs("  \n \n"), vec![pair("", "")]);
}

#[test]
fn heading_on_the_first_line_leaves_an_empty_preamble() {
    assert_eq!(
        pairs("# One\nlong enough text"),
        vec![pair("", ""), pair("One", "long enough text")]
    );
}

#[test]
fn short_sections_are_merged_into_the_one_before() {
    assert_eq!(
        pairs("preamble that is long\n# One\nshort\n# Two\nlong enough text"),
        vec![
            pair("", "preamble that is long\nshort"),
            pair("Two", "long enough text"),
        ]
    );
}

#[test]
fn ten_characters_are_not_short() {
    assert_eq!(
        pairs("preamble\n# One\n0123456789"),
        vec![pair("", "preamble"), pair("One", "0123456789")]
    );
    assert_eq!(
        pairs("preamble\n# One\n012345678"),
        vec![pair("", "preamble\n012345678")]
    );
}

#[test]
fn shortness_counts_characters() {
    // Nine characters, eighteen bytes.
    assert_eq!(
        pairs("preamble\n# One\nééééééééé"),
        vec![pair("", "preamble\nééééééééé")]
    );
}

#[test]
fn a_short_first_chunk_stays() {
    assert_eq!(
        pairs("hi\n# One\nlong enough text"),
        vec![pair("", "hi"), pair("One", "long enough text")]
    );
}

#[test]
fn merging_into_an_empty_chunk_adds_no_newline() {
    let chunks = vec![
        Chunk {
            heading: "".to_owned(),
            content: "".to_owned(),
        },
        Chunk {
            heading: "One".to_owned(),
            content: "tiny".to_owned(),
        },
        Chunk {
            heading: "Two".to_owned(),
            content: "".to_owned(),
        },
    ];
    let merged = merge_tiny(chunks);
    assert_eq!(merged.len(), 1);
    assert_eq!(merged[0].heading, "");
    assert_eq!(merged[0].content, "tiny");
}

#[test]
fn sections_without_text_are_dropped() {
    assert_eq!(
        pairs("preamble that is long\n# One\n\n# Two\nlong enough text"),
        vec![
            pair("", "preamble that is long"),
            pair("Two", "long enough text"),
        ]
    );
}

#[test]
fn no_visible_character_is_lost() {
    let body = "a b\n# H\n\tc  d\ne\n\n## I\n  f g h i j k l m\r\n\u{3000}n\n# J\no";
    let mut kept = String::new();
    for c in chunk(body) {
        kept.push_str(&c.content);
    }
    let visible = |s: &str| s.chars().filter(|c| !c.is_whitespace()).collect::<String>();
    assert_eq!(visible(&kept), "abcdefghijklmno");
    for c in chunk(body) {
        assert_eq!(c.content.trim(), c.content);
    }
}

#[test]
fn chunks_behind_the_first_are_long() {
    let body = "x\n# a\nb\n# c\nlong enough text\n# d\ne\n# f\nanother long text";
    let chunks = chunk(body);
    assert!(!chunks.is_empty());
    for c in &chunks[1..] {
        assert!(c.content.chars().count() >= 10);
    }
}
