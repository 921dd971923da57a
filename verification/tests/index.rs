use herbalist::config::{LoadedConfigs, ScopedConfig, VersioningConfig};
use herbalist::db::DbOp;
use herbalist::indexer::chunker::Chunk;
use herbalist::indexer::roles::{compute, version_queries, VersionAnswer, VersionRow};
use herbalist::indexer::wikilinks::build_name_map;
use herbalist::indexer::{
    chunk_embed_text, index_vault, parse_note, reindex_file, sha256, FileOnDisk, NoteFile,
};
use rusqlite::Connection;

// ── an index in memory ───────────────────────────────────────────────────────

struct Index {
    conn: Connection,
}

impl Index {
    fn new() -> Index {
        let conn = Connection::open_in_memory().unwrap();
        conn.execute_batch(
            "PRAGMA foreign_keys=ON;
             CREATE TABLE notes (
                 path TEXT PRIMARY KEY, mtime INTEGER NOT NULL, sha256 TEXT NOT NULL,
                 role TEXT NOT NULL DEFAULT 'primary'
             );
             CREATE TABLE frontmatter (
                 note_path TEXT NOT NULL REFERENCES notes(path) ON DELETE CASCADE,
                 key TEXT NOT NULL, value TEXT NOT NULL, PRIMARY KEY (note_path, key)
             );
             CREATE TABLE tags (
                 note_path TEXT NOT NULL REFERENCES notes(path) ON DELETE CASCADE,
                 tag TEXT NOT NULL, PRIMARY KEY (note_path, tag)
             );
             CREATE TABLE chunks (
                 id INTEGER PRIMARY KEY AUTOINCREMENT,
                 note_path TEXT NOT NULL REFERENCES notes(path) ON DELETE CASCADE,
                 heading TEXT NOT NULL, content TEXT NOT NULL
             );
             CREATE TABLE links (
                 source_path TEXT NOT NULL, target_path TEXT NOT NULL,
                 edge_type TEXT NOT NULL DEFAULT 'wikilink',
                 edge_weight REAL NOT NULL DEFAULT 1.0,
                 PRIMARY KEY (source_path, target_path)
             );",
        )
        .unwrap();
        Index { conn }
    }

    fn apply(&self, ops: &[DbOp]) {
        for op in ops {
            self.apply_one(op);
        }
    }

    fn apply_one(&self, op: &DbOp) {
        let c = &self.conn;
        match op {
            DbOp::UpsertNote { path, mtime, sha256 } => c.execute(
                "INSERT INTO notes(path, mtime, sha256) VALUES(?1,?2,?3)
                 ON CONFLICT(path) DO UPDATE SET mtime=excluded.mtime, sha256=excluded.sha256",
                (path, mtime, sha256),
            ),
            DbOp::DeleteNote { path } => {
                c.execute("DELETE FROM notes WHERE path=?1", [path]).unwrap();
                c.execute("DELETE FROM links WHERE source_path=?1", [path])
            }
            DbOp::DeleteChunks { path } => {
                c.execute("DELETE FROM chunks WHERE note_path=?1", [path])
            }
            DbOp::DeleteTags { path } => c.execute("DELETE FROM tags WHERE note_path=?1", [path]),
            DbOp::DeleteFrontmatter { path } => {
                c.execute("DELETE FROM frontmatter WHERE note_path=?1", [path])
            }
            DbOp::DeleteLinks { path } => {
                c.execute("DELETE FROM links WHERE source_path=?1", [path])
            }
            DbOp::InsertFrontmatter { path, key, value } => c.execute(
                "INSERT OR REPLACE INTO frontmatter(note_path,key,value) VALUES(?1,?2,?3)",
                (path, key, value),
            ),
            DbOp::InsertTag { path, tag } => c.execute(
                "INSERT OR IGNORE INTO tags(note_path,tag) VALUES(?1,?2)",
                (path, tag),
            ),
            DbOp::InsertChunk { path, heading, content, .. } => c.execute(
                "INSERT INTO chunks(note_path,heading,content) VALUES(?1,?2,?3)",
                (path, heading, content),
            ),
            DbOp::InsertLink { source, target } => c.execute(
                "INSERT OR IGNORE INTO links(source_path,target_path,edge_type,edge_weight)
                 VALUES(?1,?2,'wikilink',1.0)",
                (source, target),
            ),
            DbOp::ResetRoles => c.execute("UPDATE notes SET role='primary'", ()),
            DbOp::DeleteRevisionLinks => {
                c.execute("DELETE FROM links WHERE edge_type='revision_of'", ())
            }
            DbOp::SetRole { path, role } => {
                c.execute("UPDATE notes SET role=?2 WHERE path=?1", (path, role.name()))
            }
            DbOp::InsertRevisionLink { source, target, weight } => c.execute(
                "INSERT OR IGNORE INTO links(source_path,target_path,edge_type,edge_weight)
                 VALUES(?1,?2,'revision_of',?3)",
                (source, target, f32::from_bits(*weight)),
            ),
        }
        .unwrap();
    }

    fn column(&self, sql: &str) -> Vec<String> {
        let mut stmt = self.conn.prepare(sql).unwrap();
        let rows = stmt.query_map((), |r| r.get::<_, String>(0)).unwrap();
        rows.map(|r| r.unwrap()).collect()
    }

    fn paths(&self) -> Vec<String> {
        self.column("SELECT path FROM notes")
    }

    fn stored_sha256(&self, path: &str) -> Option<String> {
        self.conn
            .query_row("SELECT sha256 FROM notes WHERE path=?1", [path], |r| r.get(0))
            .ok()
    }

    fn get_note_role(&self, path: &str) -> Option<String> {
        self.conn
            .query_row("SELECT role FROM notes WHERE path=?1", [path], |r| r.get(0))
            .ok()
    }

    fn all_links(&self) -> Vec<(String, String, f32)> {
        let mut stmt = self
            .conn
            .prepare(
                "SELECT source_path, target_path, edge_weight FROM links
                 ORDER BY source_path, target_path",
            )
            .unwrap();
        let rows = stmt
            .query_map((), |r| Ok((r.get(0)?, r.get(1)?, r.get(2)?)))
            .unwrap();
        rows.map(|r| r.unwrap()).collect()
    }

    fn dump(&self) -> Vec<String> {
        let mut all = self.column("SELECT path || '|' || sha256 || '|' || role FROM notes ORDER BY 1");
        all.extend(self.column(
            "SELECT note_path || '|' || key || '=' || value FROM frontmatter ORDER BY 1",
        ));
        all.extend(self.column("SELECT note_path || '#' || tag FROM tags ORDER BY 1"));
        all.extend(self.column(
            "SELECT note_path || ':' || heading || ':' || content FROM chunks ORDER BY note_path, id",
        ));
        all.extend(self.column(
            "SELECT source_path || '>' || target_path || ' ' || edge_type || ' ' || edge_weight
             FROM links ORDER BY 1",
        ));
        all
    }

    fn versioned(&self, resource_key: &str, revision_key: &str) -> Vec<VersionRow> {
        let mut stmt = self
            .conn
            .prepare(
                "SELECT f1.note_path, f1.value, CAST(f2.value AS INTEGER)
                 FROM frontmatter f1
                 JOIN frontmatter f2 ON f2.note_path = f1.note_path AND f2.key = ?2
                 WHERE f1.key = ?1",
            )
            .unwrap();
        let rows = stmt
            .query_map([resource_key, revision_key], |r| {
                Ok(VersionRow {
                    path: r.get(0)?,
                    resource_id: r.get(1)?,
                    revision: r.get(2)?,
                })
            })
            .unwrap();
        rows.map(|r| r.unwrap()).collect()
    }

    fn compute_roles(&self, configs: &LoadedConfigs) {
        let answers: Vec<VersionAnswer> = version_queries(&self.paths(), configs)
            .iter()
            .map(|q| VersionAnswer {
                namespace: q.namespace.clone(),
                rows: self.versioned(&q.resource_key, &q.revision_key),
            })
            .collect();
        self.apply(&compute(configs, &answers));
    }

    fn run_index(&self, vault: &str, files: &[(&str, &str)]) -> usize {
        let md_files: Vec<String> = files.iter().map(|(p, _)| p.to_string()).collect();
        let notes: Vec<NoteFile> = files
            .iter()
            .map(|(p, content)| {
                let rel = herbalist::indexer::vault_relative(vault, p);
                let stored = self.stored_sha256(&rel);
                NoteFile::new(vault, p, 5, content.to_string(), stored)
            })
            .collect();
        let ops = index_vault(vault, &md_files, &self.paths(), &notes);
        self.apply(&ops);
        ops.len()
    }
}

// ── hashes and notes ─────────────────────────────────────────────────────────

#[test]
fn hashes() {
    assert_eq!(
        sha256(""),
        "e3b0c44298fc1c149afbf4c8996fb92427ae41e4649b934ca495991b7852b855"
    );
    assert_eq!(
        sha256("abc"),
        "ba7816bf8f01cfea414140de5dae2223b00361a396177a9cb410ff61f20015ad"
    );
    assert_eq!(sha256("é").len(), 64);
    assert_ne!(sha256("é"), sha256("e"));
}

#[test]
fn texts_to_embed() {
    let mut c = Chunk {
        heading: "".to_owned(),
        content: "text".to_owned(),
    };
    assert_eq!(chunk_embed_text(&c), "text");
    c.heading = "Head".to_owned();
    assert_eq!(chunk_embed_text(&c), "Head\ntext");
}

const ALPHA: &str = "---\ntitle: A\ntags: [x]\nlink: '[[Gamma]]'\n---\n#y about [[Beta]] and \
                     [[beta|again]] and [[Nowhere]]\n# Head\nlong enough text";

#[test]
fn notes_are_parsed() {
    let files: Vec<String> = ["/v/Alpha.md", "/v/sub/Beta.md", "/v/Gamma.md"]
        .iter()
        .map(|s| s.to_string())
        .collect();
    let note = parse_note("/v", ALPHA, &build_name_map(&files));
    let keys: Vec<&str> = note.fields.iter().map(|(k, _)| k.as_str()).collect();
    assert_eq!(keys, vec!["title", "link"]);
    assert_eq!(note.tags, vec!["x", "y"]);
    // Links count in the frontmatter too.
    assert_eq!(note.links, vec!["Gamma.md", "sub/Beta.md", "sub/Beta.md"]);
    assert_eq!(note.chunks.len(), 2);
    assert_eq!(note.chunks[1].heading, "Head");
}

// ── indexing ─────────────────────────────────────────────────────────────────

const BETA: &str = "just some text here";

#[test]
fn an_index_run_stores_what_the_files_hold() {
    let index = Index::new();
    index.run_index("/v", &[("/v/Alpha.md", ALPHA), ("/v/sub/Beta.md", BETA)]);
    assert_eq!(
        index.dump(),
        vec![
            format!("Alpha.md|{}|primary", sha256(ALPHA)),
            format!("sub/Beta.md|{}|primary", sha256(BETA)),
            "Alpha.md|link=[[Gamma]]".to_owned(),
            "Alpha.md|title=A".to_owned(),
            "Alpha.md#x".to_owned(),
            "Alpha.md#y".to_owned(),
            "Alpha.md::#y about [[Beta]] and [[beta|again]] and [[Nowhere]]".to_owned(),
            "Alpha.md:Head:long enough text".to_owned(),
            "sub/Beta.md::just some text here".to_owned(),
            "Alpha.md>sub/Beta.md wikilink 1.0".to_owned(),
        ]
    );
}

#[test]
fn a_second_run_changes_nothing() {
    let index = Index::new();
    let files = [("/v/Alpha.md", ALPHA), ("/v/sub/Beta.md", BETA)];
    assert!(index.run_index("/v", &files) > 0);
    let before = index.dump();
    assert_eq!(index.run_index("/v", &files), 0);
    assert_eq!(index.dump(), before);
}

#[test]
fn the_same_file_is_indexed_once() {
    // Both stand at a/b.md in the vault.
    let files = [("/v/a\\b.md", ALPHA), ("/v/a/b.md", ALPHA)];
    let index = Index::new();
    let ops = index.run_index("/v", &files);
    assert_eq!(index.paths(), vec!["a/b.md"]);
    let single = Index::new();
    assert_eq!(single.run_index("/v", &files[..1]), ops);
    assert_eq!(index.dump(), single.dump());
    assert_eq!(index.run_index("/v", &files), 0);
    // With the content of the index, and then with another one.
    let changed = [("/v/a\\b.md", ALPHA), ("/v/a/b.md", BETA)];
    assert!(index.run_index("/v", &changed) > 0);
    assert_eq!(index.stored_sha256("a/b.md"), Some(sha256(BETA)));
    let alone = Index::new();
    alone.run_index("/v", &changed[1..]);
    assert_eq!(index.dump(), alone.dump());
}

#[test]
fn changed_files_are_indexed_anew_and_gone_ones_removed() {
    let index = Index::new();
    index.run_index(
        "/v",
        &[("/v/Alpha.md", ALPHA), ("/v/sub/Beta.md", BETA), ("/v/Gone.md", "[[Alpha]] gone soon")],
    );
    index.conn.execute("UPDATE notes SET role='archival' WHERE path='Alpha.md'", ()).unwrap();
    let changed = "now without anything";
    index.run_index("/v", &[("/v/Alpha.md", changed), ("/v/sub/Beta.md", BETA)]);
    assert_eq!(
        index.dump(),
        vec![
            // The role stays.
            format!("Alpha.md|{}|archival", sha256(changed)),
            format!("sub/Beta.md|{}|primary", sha256(BETA)),
            format!("Alpha.md::{}", changed),
            format!("sub/Beta.md::{}", BETA),
        ]
    );
}

#[test]
fn operations_of_a_run_come_in_three_steps() {
    let files: Vec<String> = vec!["/v/a.md".to_owned(), "/v/b.md".to_owned()];
    let notes = vec![
        NoteFile::new("/v", "/v/a.md", 1, "long enough text".to_owned(), None),
        NoteFile::new("/v", "/v/b.md", 2, BETA.to_owned(), Some(sha256(BETA))),
    ];
    let ops = index_vault("/v", &files, &vec!["old.md".to_owned(), "b.md".to_owned()], &notes);
    assert!(matches!(&ops[0], DbOp::DeleteNote { path } if path == "old.md"));
    assert!(matches!(&ops[1], DbOp::UpsertNote { path, mtime: 1, .. } if path == "a.md"));
    assert!(matches!(&ops[2], DbOp::DeleteChunks { .. }));
    assert!(matches!(&ops[3], DbOp::DeleteTags { .. }));
    assert!(matches!(&ops[4], DbOp::DeleteFrontmatter { .. }));
    assert!(matches!(&ops[5], DbOp::DeleteLinks { .. }));
    assert!(matches!(
        &ops[6],
        DbOp::InsertChunk { embed_text, .. } if embed_text == "long enough text"
    ));
    assert_eq!(ops.len(), 7);
}

#[test]
fn only_changed_files_are_embedded() {
    let files: Vec<String> = vec!["/v/a.md".to_owned(), "/v/b.md".to_owned()];
    let notes = vec![
        NoteFile::new("/v", "/v/a.md", 1, ALPHA.to_owned(), Some(sha256("old"))),
        NoteFile::new("/v", "/v/b.md", 2, BETA.to_owned(), Some(sha256(BETA))),
    ];
    let stored = vec!["a.md".to_owned(), "b.md".to_owned()];
    let mut embedded = 0;
    for op in index_vault("/v", &files, &stored, &notes) {
        if let DbOp::InsertChunk { path, .. } = op {
            assert_eq!(path, "a.md");
            embedded += 1;
        }
    }
    assert_eq!(embedded, 2);
}

#[test]
fn links_come_from_notes() {
    let index = Index::new();
    let a = ("/v/a.md", "to [[b]] and [[c]] it goes");
    let b = ("/v/b.md", "to [[a]] and [[c]] it goes");
    let c = ("/v/c.md", "to [[a]] and [[b]] it goes");
    index.run_index("/v", &[a, b, c]);
    assert_eq!(index.all_links().len(), 6);
    index.run_index("/v", &[a, c]);
    let names = build_name_map(&vec!["/v/a.md".to_owned()]);
    let r = reindex_file("/v", "/v/c.md", &None, &index.stored_sha256("c.md"), &names);
    index.apply(&r.ops);
    let notes = index.paths();
    assert_eq!(notes, vec!["a.md"]);
    assert_eq!(index.all_links().len(), 2);
    for (source, _, _) in index.all_links() {
        assert!(notes.contains(&source));
    }
}

#[test]
fn a_single_file_is_indexed_as_in_a_run() {
    let files = [("/v/Alpha.md", ALPHA), ("/v/sub/Beta.md", BETA)];
    let whole = Index::new();
    whole.run_index("/v", &files);

    let single = Index::new();
    single.run_index("/v", &[("/v/Alpha.md", "old text"), ("/v/sub/Beta.md", BETA)]);
    let names = build_name_map(&files.iter().map(|(p, _)| p.to_string()).collect());
    let disk = Some(FileOnDisk {
        mtime: 9,
        content: ALPHA.to_owned(),
    });
    let r = reindex_file("/v", "/v/Alpha.md", &disk, &single.stored_sha256("Alpha.md"), &names);
    assert!(r.changed);
    single.apply(&r.ops);
    assert_eq!(single.dump(), whole.dump());

    let r = reindex_file("/v", "/v/Alpha.md", &disk, &single.stored_sha256("Alpha.md"), &names);
    assert!(!r.changed);
    assert!(r.ops.is_empty());
}

#[test]
fn a_file_that_is_gone_takes_its_note_with_it() {
    let index = Index::new();
    let files = [("/v/Alpha.md", ALPHA), ("/v/sub/Beta.md", "see [[Alpha]] there")];
    index.run_index("/v", &files);
    let names = build_name_map(&files.iter().map(|(p, _)| p.to_string()).collect());
    let r = reindex_file("/v", "/v/Alpha.md", &None, &index.stored_sha256("Alpha.md"), &names);
    assert!(r.changed);
    index.apply(&r.ops);
    assert_eq!(index.paths(), vec!["sub/Beta.md"]);
    assert_eq!(
        index.all_links(),
        vec![("sub/Beta.md".to_owned(), "Alpha.md".to_owned(), 1.0)]
    );
}

// ── roles ────────────────────────────────────────────────────────────────────

fn simple_configs(resource_key: &str, revision_key: &str) -> LoadedConfigs {
    LoadedConfigs {
        all_scopes: vec!["".to_owned()],
        versioned: vec![ScopedConfig {
            scope: "".to_owned(),
            versioning: VersioningConfig {
                resource_key: resource_key.to_owned(),
                revision_key: revision_key.to_owned(),
                revision_of_weight: 0.5f32.to_bits(),
            },
        }],
    }
}

fn seed_note(db: &Index, path: &str, resource_id: &str, revision: i64) {
    db.apply(&[
        DbOp::UpsertNote {
            path: path.to_owned(),
            mtime: 0,
            sha256: path.to_owned(),
        },
        DbOp::InsertFrontmatter {
            path: path.to_owned(),
            key: "resource-id".to_owned(),
            value: resource_id.to_owned(),
        },
        DbOp::InsertFrontmatter {
            path: path.to_owned(),
            key: "revision".to_owned(),
            value: revision.to_string(),
        },
    ]);
}

#[test]
fn single_version_stays_primary() {
    let db = Index::new();
    seed_note(&db, "essay.md", "my-essay", 1000);
    let configs = simple_configs("resource-id", "revision");
    db.compute_roles(&configs);
    assert_eq!(db.get_note_role("essay.md").as_deref(), Some("primary"));
}

#[test]
fn higher_revision_is_head() {
    let db = Index::new();
    seed_note(&db, "essay-v1.md", "my-essay", 1000);
    seed_note(&db, "essay-v2.md", "my-essay", 2000);
    let configs = simple_configs("resource-id", "revision");
    db.compute_roles(&configs);
    assert_eq!(db.get_note_role("essay-v2.md").as_deref(), Some("primary"));
    assert_eq!(db.get_note_role("essay-v1.md").as_deref(), Some("archival"));
}

#[test]
fn archival_note_gets_revision_edge() {
    let db = Index::new();
    seed_note(&db, "essay-v1.md", "my-essay", 1000);
    seed_note(&db, "essay-v2.md", "my-essay", 2000);
    let configs = simple_configs("resource-id", "revision");
    db.compute_roles(&configs);

    let links = db.all_links();
    let revision_edge = links
        .iter()
        .find(|(src, tgt, _)| src == "essay-v1.md" && tgt == "essay-v2.md");
    assert!(
        revision_edge.is_some(),
        "expected revision_of edge from v1 to v2"
    );
    assert_eq!(revision_edge.unwrap().2, 0.5);
}

#[test]
fn wikilink_preserved_alongside_role() {
    let db = Index::new();
    seed_note(&db, "essay-v1.md", "my-essay", 1000);
    seed_note(&db, "essay-v2.md", "my-essay", 2000);

    // Add a body wikilink from v1 to some other note.
    db.apply(&[
        DbOp::UpsertNote {
            path: "other.md".to_owned(),
            mtime: 0,
            sha256: "other".to_owned(),
        },
        DbOp::InsertLink {
            source: "essay-v1.md".to_owned(),
            target: "other.md".to_owned(),
        },
    ]);

    let configs = simple_configs("resource-id", "revision");
    db.compute_roles(&configs);

    let links = db.all_links();
    let wikilink = links
        .iter()
        .find(|(src, tgt, _)| src == "essay-v1.md" && tgt == "other.md");
    assert!(
        wikilink.is_some(),
        "wikilink from archival note must be preserved"
    );
}

#[test]
fn recompute_resets_stale_archival() {
    let db = Index::new();
    seed_note(&db, "essay-v1.md", "my-essay", 1000);
    seed_note(&db, "essay-v2.md", "my-essay", 2000);
    let configs = simple_configs("resource-id", "revision");
    db.compute_roles(&configs);

    // Remove the resource frontmatter from essay-v1 (simulates reindex)
    db.apply(&[DbOp::DeleteFrontmatter {
        path: "essay-v1.md".to_owned(),
    }]);
    db.compute_roles(&configs);

    assert_eq!(
        db.get_note_role("essay-v1.md").as_deref(),
        Some("primary"),
        "note without resource frontmatter should revert to primary"
    );
    assert!(db.all_links().is_empty());
}

#[test]
fn recomputing_roles_changes_nothing() {
    let db = Index::new();
    for (path, id, rev) in [("a", "x", 3), ("b", "x", 1), ("c", "y", 2), ("d", "x", 2)] {
        seed_note(&db, path, id, rev);
    }
    let configs = simple_configs("resource-id", "revision");
    db.compute_roles(&configs);
    let once = db.dump();
    db.compute_roles(&configs);
    assert_eq!(db.dump(), once);
    assert_eq!(
        db.all_links(),
        vec![
            ("b".to_owned(), "a".to_owned(), 0.5),
            ("d".to_owned(), "a".to_owned(), 0.5),
        ]
    );
}

#[test]
fn wikilinks_take_precedence_over_revisions() {
    let db = Index::new();
    seed_note(&db, "v1", "x", 1);
    seed_note(&db, "v2", "x", 2);
    db.apply(&[DbOp::InsertLink {
        source: "v1".to_owned(),
        target: "v2".to_owned(),
    }]);
    db.compute_roles(&simple_configs("resource-id", "revision"));
    assert_eq!(db.all_links(), vec![("v1".to_owned(), "v2".to_owned(), 1.0)]);
    assert_eq!(db.get_note_role("v1").as_deref(), Some("archival"));
}

#[test]
fn one_version_of_each_document_is_current() {
    let mut configs = simple_configs("resource-id", "revision");
    configs.all_scopes.push("sub".to_owned());
    let db = Index::new();
    for (path, id, revision) in [
        ("a1", "x", 10), ("a2", "x", 9), ("a3", "x", 100), ("b1", "y", 1), ("sub/c1", "x", 1000),
        ("sub/c2", "x", 7),
    ] {
        seed_note(&db, path, id, revision);
    }
    // It carries only one of the keys.
    db.apply(&[
        DbOp::UpsertNote {
            path: "plain".to_owned(),
            mtime: 0,
            sha256: "".to_owned(),
        },
        DbOp::InsertFrontmatter {
            path: "plain".to_owned(),
            key: "resource-id".to_owned(),
            value: "x".to_owned(),
        },
    ]);
    db.compute_roles(&configs);
    for (path, role) in [
        ("a1", "archival"), ("a2", "archival"), ("a3", "primary"), ("b1", "primary"),
        ("sub/c1", "primary"), ("sub/c2", "archival"), ("plain", "primary"),
    ] {
        assert_eq!(db.get_note_role(path).as_deref(), Some(role), "{path}");
    }
    let edges: Vec<(String, String, f32)> = [("a1", "a3"), ("a2", "a3"), ("sub/c2", "sub/c1")]
        .iter()
        .map(|(s, t)| (s.to_string(), t.to_string(), 0.5))
        .collect();
    assert_eq!(db.all_links(), edges);
}

fn version(path: &str, id: &str, revision: i64) -> VersionRow {
    VersionRow {
        path: path.to_owned(),
        resource_id: id.to_owned(),
        revision,
    }
}

fn archived(ops: &[DbOp]) -> Vec<(String, String)> {
    ops.iter()
        .filter_map(|op| match op {
            DbOp::InsertRevisionLink { source, target, .. } => {
                Some((source.clone(), target.clone()))
            }
            _ => None,
        })
        .collect()
}

#[test]
fn of_equal_revisions_the_first_is_head() {
    let answers = vec![VersionAnswer {
        namespace: "".to_owned(),
        rows: vec![version("a", "x", 1), version("b", "x", 1), version("c", "y", -5)],
    }];
    let ops = compute(&simple_configs("id", "rev"), &answers);
    assert_eq!(archived(&ops), vec![("b".to_owned(), "a".to_owned())]);
    assert!(matches!(ops[0], DbOp::ResetRoles));
    assert!(matches!(ops[1], DbOp::DeleteRevisionLinks));
}

#[test]
fn versions_count_within_their_namespace() {
    let mut configs = simple_configs("id", "rev");
    configs.all_scopes.push("sub".to_owned());
    configs.versioned.push(ScopedConfig {
        scope: "sub".to_owned(),
        versioning: VersioningConfig {
            resource_key: "doc".to_owned(),
            revision_key: "n".to_owned(),
            revision_of_weight: 0.25f32.to_bits(),
        },
    });
    let notes = vec!["a.md".to_owned(), "sub/b.md".to_owned(), "c.md".to_owned()];
    let queries: Vec<(String, String, String)> = version_queries(&notes, &configs)
        .into_iter()
        .map(|q| (q.namespace, q.resource_key, q.revision_key))
        .collect();
    assert_eq!(
        queries,
        vec![
            ("".to_owned(), "id".to_owned(), "rev".to_owned()),
            ("sub".to_owned(), "doc".to_owned(), "n".to_owned()),
        ]
    );
    let rows = vec![
        version("a.md", "x", 1),
        version("sub/b.md", "x", 9),
        version("sub/c.md", "x", 3),
        version("c.md", "x", 2),
    ];
    let answers = vec![
        VersionAnswer {
            namespace: "".to_owned(),
            rows: rows.clone(),
        },
        VersionAnswer {
            namespace: "sub".to_owned(),
            rows,
        },
    ];
    let ops = compute(&configs, &answers);
    assert_eq!(
        archived(&ops),
        vec![
            ("a.md".to_owned(), "c.md".to_owned()),
            ("sub/c.md".to_owned(), "sub/b.md".to_owned()),
        ]
    );
    assert!(ops.iter().any(|op| matches!(
        op,
        DbOp::InsertRevisionLink { weight, .. } if *weight == 0.25f32.to_bits()
    )));
}

#[test]
fn without_versioning_every_note_is_primary() {
    let configs = LoadedConfigs {
        all_scopes: vec!["".to_owned()],
        versioned: vec![],
    };
    let answers = vec![VersionAnswer {
        namespace: "".to_owned(),
        rows: vec![version("a", "x", 1), version("b", "x", 2)],
    }];
    let ops = compute(&configs, &answers);
    assert_eq!(ops.len(), 2);
    assert!(matches!(ops[0], DbOp::ResetRoles));
    assert!(matches!(ops[1], DbOp::DeleteRevisionLinks));
    assert!(version_queries(&vec!["a".to_owned()], &configs).is_empty());

    // Also where there was a config before.
    let db = Index::new();
    seed_note(&db, "v1", "x", 1);
    seed_note(&db, "v2", "x", 2);
    db.compute_roles(&simple_configs("resource-id", "revision"));
    assert_eq!(db.get_note_role("v1").as_deref(), Some("archival"));
    db.compute_roles(&configs);
    assert_eq!(db.get_note_role("v1").as_deref(), Some("primary"));
    assert!(db.all_links().is_empty());
}

#[test]
fn notes_outside_all_namespaces_stay_primary() {
    let mut configs = simple_configs("id", "rev");
    configs.all_scopes[0] = "sub".to_owned();
    configs.versioned[0].scope = "sub".to_owned();
    let answers = vec![VersionAnswer {
        namespace: "sub".to_owned(),
        rows: vec![version("a", "x", 1), version("b", "x", 2), version("sub/c", "x", 3)],
    }];
    assert!(archived(&compute(&configs, &answers)).is_empty());
    assert!(version_queries(&vec!["a".to_owned()], &configs).is_empty());
}
