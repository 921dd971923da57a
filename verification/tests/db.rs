use herbalist::db::{
    blob_to_floats, floats_to_blob, sanitize_fts_query, EmbeddedChunk, FtsResult, NoteMeta,
    NoteRole, WIKILINK_WEIGHT,
};
use rusqlite::Connection;

#[test]
fn queries_are_quoted() {
    assert_eq!(sanitize_fts_query("one two"), "\"one\" \"two\"");
    assert_eq!(
        sanitize_fts_query("  a AND (b* OR c:d)\n"),
        "\"a\" \"AND\" \"(b*\" \"OR\" \"c:d)\""
    );
    assert_eq!(sanitize_fts_query("say \"hi\""), "\"say\" \"\"\"hi\"\"\"");
    assert_eq!(sanitize_fts_query(""), "\"\"");
    assert_eq!(sanitize_fts_query(" \t\n"), "\"\"");
}

#[test]
fn queries_find_literals() {
    let conn = Connection::open_in_memory().unwrap();
    conn.execute_batch("CREATE VIRTUAL TABLE t USING fts5(content);").unwrap();
    for text in ["a AND b", "a b", "NOT here", "x \"quoted\" y"] {
        conn.execute("INSERT INTO t(content) VALUES(?1)", [text]).unwrap();
    }
    let found = |q: &str| -> Vec<String> {
        let mut stmt = conn
            .prepare("SELECT content FROM t WHERE t MATCH ?1 ORDER BY rowid")
            .unwrap();
        let rows = stmt
            .query_map([sanitize_fts_query(q)], |r| r.get::<_, String>(0))
            .unwrap();
        rows.map(|r| r.unwrap()).collect()
    };
    assert_eq!(found("a AND b"), vec!["a AND b"]);
    assert_eq!(found("a b"), vec!["a AND b", "a b"]);
    assert_eq!(found("NOT"), vec!["NOT here"]);
    assert_eq!(found("\"quoted\""), vec!["x \"quoted\" y"]);
    assert!(found("").is_empty());
    assert!(found("(").is_empty());
}

#[test]
fn blobs_are_little_endian() {
    let floats = [0.0f32, -0.0, 1.0, -1.5, f32::MAX, f32::MIN_POSITIVE, f32::INFINITY];
    let bits: Vec<u32> = floats.iter().map(|f| f.to_bits()).collect();
    let expected: Vec<u8> = floats.iter().flat_map(|f| f.to_le_bytes()).collect();
    assert_eq!(floats_to_blob(&bits), expected);
    assert_eq!(floats_to_blob(&[0x0102_0304]), vec![4, 3, 2, 1]);
    assert_eq!(blob_to_floats(&expected), bits);
}

#[test]
fn bytes_behind_the_last_number_are_left_out() {
    assert_eq!(blob_to_floats(&[4, 3, 2, 1, 9, 9, 9]), vec![0x0102_0304]);
    assert!(blob_to_floats(&[1, 2, 3]).is_empty());
    assert!(blob_to_floats(&[]).is_empty());
}

#[test]
fn blobs_of_whole_numbers_read_back() {
    let blob: Vec<u8> = (0..=255).collect();
    assert_eq!(floats_to_blob(&blob_to_floats(&blob)), blob);
    assert_eq!(blob.len(), 4 * blob_to_floats(&blob).len());
}

#[test]
fn roles_and_weights() {
    assert_eq!(NoteRole::Primary.name(), "primary");
    assert_eq!(NoteRole::Archival.name(), "archival");
    assert_eq!(f32::from_bits(WIKILINK_WEIGHT), 1.0);
}

#[test]
fn rows_hold_what_the_index_holds() {
    let meta = NoteMeta {
        path: "a.md".to_owned(),
        mtime: 7,
        sha256: "00".to_owned(),
    };
    let chunk = EmbeddedChunk {
        id: 1,
        note_path: meta.path.clone(),
        heading: "H".to_owned(),
        content: "C".to_owned(),
        embedding: floats_to_blob(&[1.0f32.to_bits()]),
    };
    let fts = FtsResult {
        chunk_id: chunk.id,
        note_path: chunk.note_path.clone(),
        heading: chunk.heading.clone(),
        snippet: "[C]".to_owned(),
        rank: (-1.5f64).to_bits(),
    };
    assert_eq!(blob_to_floats(&chunk.embedding), vec![1.0f32.to_bits()]);
    assert_eq!(f64::from_bits(fts.rank), -1.5);
    assert_eq!(fts.chunk_id, 1);
}
