use herbalist::db::{EmbeddedChunk, FtsResult};
use herbalist::mcp::ranking::{key_of_score, top_ranked};
use herbalist::mcp::tools::{
    error_text, get_note, related_notes, required, result_count, search_notes, shown_content,
    ScoredChunk, ScoredNote, SearchResult, ToolError,
};
use herbalist::mcp::{tool_definitions, tool_named, ToolName};

fn chunk(id: i64, path: &str, score: f32) -> ScoredChunk {
    ScoredChunk {
        chunk: EmbeddedChunk {
            id,
            note_path: path.to_owned(),
            heading: format!("h{}", id),
            content: format!("content {}", id),
            embedding: vec![],
        },
        score: score.to_bits(),
        shown: (score * 1000.0) as i64,
        boosted: ((score + 0.2).min(1.0) * 1000.0) as i64,
    }
}

fn fts(id: i64, path: &str) -> FtsResult {
    FtsResult {
        chunk_id: id,
        note_path: path.to_owned(),
        heading: format!("h{}", id),
        snippet: format!("[{}]", id),
        rank: (-1.0f64).to_bits(),
    }
}

fn rows(results: &[SearchResult]) -> Vec<(String, i64)> {
    results.iter().map(|r| (r.path.clone(), r.score)).collect()
}

fn row(path: &str, score: i64) -> (String, i64) {
    (path.to_owned(), score)
}

#[test]
fn scores_compare_as_numbers() {
    let floats = [
        f32::NEG_INFINITY, f32::MIN, -1.0, -0.25, -f32::MIN_POSITIVE, -0.0, 0.0, 1e-40, 0.3, 1.0,
        f32::MAX, f32::INFINITY,
    ];
    for a in floats {
        for b in floats {
            let (x, y) = (key_of_score(a.to_bits()), key_of_score(b.to_bits()));
            assert_eq!(a.partial_cmp(&b).unwrap(), x.cmp(&y), "{a} {b}");
        }
    }
}

#[test]
fn ranking_is_a_stable_sort() {
    let mut state: u64 = 99;
    for len in 0..40usize {
        let mut scores: Vec<f32> = Vec::new();
        for _ in 0..len {
            state = state.wrapping_mul(6364136223846793005).wrapping_add(1442695040888963407);
            scores.push(((state >> 60) as f32 - 8.0) / 8.0);
        }
        let mut expected: Vec<usize> = (0..len).collect();
        expected.sort_by(|a, b| scores[*b].partial_cmp(&scores[*a]).unwrap());
        let bits: Vec<u32> = scores.iter().map(|s| s.to_bits()).collect();
        for limit in [0, 1, 5, 20, 100] {
            let top: Vec<usize> = expected.iter().copied().take(limit).collect();
            assert_eq!(top_ranked(&bits, limit), top);
        }
    }
}

#[test]
fn search_ranks_and_boosts() {
    let chunks = vec![chunk(1, "a.md", 0.25), chunk(2, "b.md", 0.75), chunk(3, "c.md", 0.5)];
    let found = search_notes(10, &chunks, &vec![fts(1, "a.md"), fts(9, "d.md")]);
    assert_eq!(
        rows(&found),
        vec![row("b.md", 750), row("c.md", 500), row("d.md", 500), row("a.md", 450)]
    );
    assert_eq!(found[0].section, "h2");
    assert_eq!(found[0].snippet, "content 2");
    assert_eq!(found[2].section, "h9");
    assert_eq!(found[2].snippet, "[9]");
}

#[test]
fn a_boost_counts_for_the_rank() {
    // 0.75 with the boost is 0.95: before 0.875.
    let chunks = vec![chunk(1, "a.md", 0.875), chunk(2, "b.md", 0.75)];
    let found = search_notes(10, &chunks, &vec![fts(2, "b.md")]);
    assert_eq!(rows(&found), vec![row("b.md", 950), row("a.md", 875)]);
    // It also decides which section of a note is shown.
    let chunks = vec![chunk(1, "a.md", 0.75), chunk(2, "a.md", 0.625)];
    let found = search_notes(10, &chunks, &vec![fts(2, "a.md")]);
    assert_eq!(rows(&found), vec![row("a.md", 825)]);
    assert_eq!(found[0].section, "h2");
}

#[test]
fn keyword_results_come_before_worse_ones() {
    let chunks = vec![chunk(1, "a.md", 0.75), chunk(2, "b.md", 0.25)];
    let found = search_notes(2, &chunks, &vec![fts(9, "z.md")]);
    assert_eq!(rows(&found), vec![row("a.md", 750), row("z.md", 500)]);
    // A keyword hit in another section of a note counts too, if it is better.
    let found = search_notes(2, &chunks, &vec![fts(9, "b.md")]);
    assert_eq!(rows(&found), vec![row("a.md", 750), row("b.md", 500)]);
    assert_eq!(found[1].section, "h9");
    let found = search_notes(2, &chunks, &vec![fts(9, "a.md")]);
    assert_eq!(rows(&found), vec![row("a.md", 750), row("b.md", 250)]);
    // A chunk that both searches have found is boosted instead.
    let found = search_notes(2, &chunks, &vec![fts(2, "b.md")]);
    assert_eq!(rows(&found), vec![row("a.md", 750), row("b.md", 450)]);
    assert_eq!(found[1].section, "h2");
    // Equal scores stay in the order in which they were found.
    let chunks = vec![chunk(1, "c.md", 0.5), chunk(2, "d.md", 0.5)];
    let found = search_notes(9, &chunks, &vec![fts(8, "y.md"), fts(9, "z.md")]);
    let paths: Vec<&str> = found.iter().map(|r| r.path.as_str()).collect();
    assert_eq!(paths, vec!["c.md", "d.md", "y.md", "z.md"]);
}

#[test]
fn search_results_are_ranked() {
    let mut state: u64 = 7;
    for _ in 0..300 {
        let mut chunks = Vec::new();
        let mut keywords = Vec::new();
        for id in 0..12i64 {
            state = state.wrapping_mul(6364136223846793005).wrapping_add(1442695040888963407);
            let path = format!("{}.md", (state >> 40) % 7);
            if (state >> 50) % 3 > 0 {
                chunks.push(chunk(id, &path, ((state >> 60) as f32 - 4.0) / 12.0));
            }
            if (state >> 55) % 3 == 0 {
                keywords.push(fts(id, &path));
            }
        }
        for top_k in [1, 3, 20] {
            let found = search_notes(top_k, &chunks, &keywords);
            assert!(found.len() <= top_k);
            for i in 1..found.len() {
                assert!(found[i - 1].score >= found[i].score);
                assert!(found[..i].iter().all(|r| r.path != found[i].path));
            }
        }
    }
}

#[test]
fn search_boost_is_capped() {
    let found = search_notes(1, &vec![chunk(1, "a.md", 0.9)], &vec![fts(1, "a.md")]);
    assert_eq!(rows(&found), vec![row("a.md", 1000)]);
}

#[test]
fn search_lists_each_note_once() {
    let chunks = vec![
        chunk(1, "a.md", 0.5),
        chunk(2, "a.md", 0.75),
        chunk(3, "b.md", 0.625),
        chunk(4, "a.md", 0.25),
    ];
    let found = search_notes(10, &chunks, &vec![fts(5, "b.md"), fts(6, "c.md"), fts(7, "c.md")]);
    assert_eq!(rows(&found), vec![row("a.md", 750), row("b.md", 625), row("c.md", 500)]);
    assert_eq!(found[2].section, "h6");
}

#[test]
fn search_gives_no_more_than_asked_for() {
    let chunks = vec![chunk(1, "a.md", 0.5), chunk(2, "b.md", 0.75), chunk(3, "c.md", 0.25)];
    let found = search_notes(2, &chunks, &vec![fts(8, "d.md")]);
    assert_eq!(rows(&found), vec![row("b.md", 750), row("a.md", 500)]);
    assert!(search_notes(0, &chunks, &vec![fts(8, "d.md")]).is_empty());
    assert!(search_notes(5, &vec![], &vec![]).is_empty());
}

#[test]
fn search_looks_at_twice_as_many_chunks() {
    let chunks = vec![
        chunk(1, "a.md", 0.9),
        chunk(2, "a.md", 0.8),
        chunk(3, "b.md", 0.7),
        chunk(4, "c.md", 0.6),
        chunk(5, "d.md", 0.5),
    ];
    let paths: Vec<String> = search_notes(2, &chunks, &vec![]).into_iter().map(|r| r.path).collect();
    assert_eq!(paths, vec!["a.md", "b.md"]);
    let paths: Vec<String> = search_notes(1, &chunks[1..].to_vec(), &vec![fts(9, "z.md")])
        .into_iter()
        .map(|r| r.path)
        .collect();
    assert_eq!(paths, vec!["a.md"]);
    let same: Vec<ScoredChunk> = (0..4).map(|i| chunk(i, "a.md", 0.5)).collect();
    let paths: Vec<String> = search_notes(2, &same, &vec![fts(9, "z.md")])
        .into_iter()
        .map(|r| r.path)
        .collect();
    assert_eq!(paths, vec!["a.md", "z.md"]);
}

#[test]
fn snippets_are_two_hundred_characters() {
    let mut c = chunk(1, "a.md", 0.5);
    c.chunk.content = "é".repeat(300);
    assert_eq!(search_notes(1, &vec![c.clone()], &vec![])[0].snippet, "é".repeat(200));
    c.chunk.content = "é".repeat(200);
    assert_eq!(search_notes(1, &vec![c], &vec![])[0].snippet, "é".repeat(200));
}

fn note(path: &str, score: f32) -> ScoredNote {
    ScoredNote {
        path: path.to_owned(),
        score: score.to_bits(),
        shown: (score * 1000.0) as i64,
    }
}

#[test]
fn related_notes_are_ranked() {
    let notes = Some(vec![
        note("a.md", 0.25),
        note("me.md", 1.0),
        note("b.md", 0.75),
        note("c.md", 0.25),
        note("d.md", -0.5),
    ]);
    let found: Vec<(String, i64)> = related_notes("me.md", 3, &notes)
        .into_iter()
        .map(|n| (n.path, n.score))
        .collect();
    assert_eq!(found, vec![row("b.md", 750), row("a.md", 250), row("c.md", 250)]);
    assert_eq!(related_notes("me.md", 10, &notes).len(), 4);
    assert!(related_notes("me.md", 0, &notes).is_empty());
    assert!(related_notes("me.md", 3, &None).is_empty());
}

#[test]
fn notes_are_read_inside_the_vault() {
    assert_eq!(get_note("/vault", "a/b.md").unwrap(), "/vault/a/b.md");
    for path in ["/etc/passwd", "../x.md", "a/../../x.md"] {
        let message = get_note("/vault", path).unwrap_err().message();
        assert_eq!(message, format!("invalid note path: {}", path));
    }
}

#[test]
fn missing_files_are_remarked() {
    assert_eq!(shown_content(Some("text".to_owned())), "text");
    assert_eq!(shown_content(None), "(file not found on disk)");
}

#[test]
fn parameters() {
    assert_eq!(required("query", Some("x".to_owned())).unwrap(), "x");
    for name in ["query", "path", "tag"] {
        let message = required(name, None).unwrap_err().message();
        assert_eq!(message, format!("missing '{}' parameter", name));
        assert_eq!(
            error_text(&message),
            format!("Error: missing '{}' parameter", name)
        );
    }
    assert_eq!(result_count(None), 10);
    assert_eq!(result_count(Some(3)), 3);
    assert_eq!(result_count(Some(0)), 0);
}

#[test]
fn tools_are_found_by_name() {
    let definitions = tool_definitions();
    let names: Vec<&str> = definitions.iter().map(|d| d.tool.name()).collect();
    assert_eq!(
        names,
        vec![
            "search_notes", "get_note", "related_notes", "list_tags", "notes_by_tag",
            "graph_neighbors",
        ]
    );
    for d in &definitions {
        assert_eq!(tool_named(d.tool.name()).unwrap(), d.tool);
    }
    assert_eq!(tool_named("list_tags").unwrap(), ToolName::ListTags);
    let e = tool_named("Search_Notes").unwrap_err();
    assert!(matches!(e, ToolError::UnknownTool { .. }));
    assert_eq!(e.message(), "unknown tool: Search_Notes");
}

#[test]
fn tools_list_their_parameters() {
    let shown: Vec<Vec<(&str, &str, bool)>> = tool_definitions()
        .iter()
        .map(|d| d.params.iter().map(|p| (p.name, p.kind.name(), p.required)).collect())
        .collect();
    assert_eq!(
        shown,
        vec![
            vec![("query", "string", true), ("top_k", "integer", false)],
            vec![("path", "string", true)],
            vec![("path", "string", true), ("top_k", "integer", false)],
            vec![],
            vec![("tag", "string", true)],
            vec![("path", "string", true), ("depth", "integer", false)],
        ]
    );
    let depth = &tool_definitions()[5].params[1];
    assert_eq!(depth.description, "Number of hops to traverse (default 1, max 5)");
    assert_eq!(
        tool_definitions()[4].description,
        "Return all note paths that have a given tag."
    );
}
