//! What the operations of the indexer amount to.
use vstd::prelude::*;

use crate::db;
use crate::indexer;
use crate::indexer::chunker;
use crate::indexer::wikilinks;
use crate::indexer::{NoteContent, NoteFileModel};
use crate::lists;

verus! {

// ── one note ─────────────────────────────────────────────────────────────────

/// Frontmatter with fields set, one after the other.
pub open spec fn with_fields(
    base: Map<Seq<char>, Seq<char>>,
    fields: Seq<(Seq<char>, Seq<char>)>,
) -> Map<Seq<char>, Seq<char>>
    decreases fields.len(),
{
    if fields.len() == 0 {
        base
    } else {
        with_fields(base, fields.drop_last()).insert(fields.last().0, fields.last().1)
    }
}

/// The row of a chunk.
pub open spec fn chunk_row(c: chunker::ChunkModel) -> db::ChunkRow {
    db::ChunkRow { heading: c.heading, content: c.content, embed_text: indexer::embed_text(c) }
}

/// The link that a wikilink stands for.
pub open spec fn wikilink_edge() -> db::Edge {
    db::Edge { kind: db::EdgeKind::Wikilink, weight: db::WIKILINK_WEIGHT }
}

/// The rows of a note that was read from a file.
pub open spec fn rows_of(role: db::NoteRole, mtime: i64, sha256: Seq<char>, c: NoteContent) -> (
    db::NoteRows) {
    db::NoteRows {
        mtime,
        sha256,
        role,
        frontmatter: with_fields(Map::empty(), c.fields),
        tags: c.tags.to_set(),
        chunks: c.chunks.map_values(|k: chunker::ChunkModel| chunk_row(k)),
    }
}

/// Whether `b` is `a` with the note at `path` read from a file: its rows and the
/// links from it are what the file contributes, its role is what it was, and
/// nothing else has changed.
pub open spec fn note_renewed(
    a: db::IndexModel,
    b: db::IndexModel,
    path: Seq<char>,
    mtime: i64,
    sha256: Seq<char>,
    c: NoteContent,
) -> bool {
    &&& b.notes == a.notes.insert(path, rows_of(db::role_at(a, path), mtime, sha256, c))
    &&& forall|s: Seq<char>, t: Seq<char>| #[trigger]
        db::edge_at(b, s, t) == if s == path {
            if c.links.contains(t) {
                Some(wikilink_edge())
            } else {
                None
            }
        } else {
            db::edge_at(a, s, t)
        }
}

/// What adds up in a note while rows are added to it.
spec fn note_grown(
    a: db::IndexModel,
    b: db::IndexModel,
    path: Seq<char>,
    c: NoteContent,
) -> bool {
    &&& a.notes.contains_key(path)
    &&& b.notes == a.notes.insert(
        path,
        db::NoteRows {
            frontmatter: with_fields(a.notes[path].frontmatter, c.fields),
            tags: a.notes[path].tags.union(c.tags.to_set()),
            chunks: a.notes[path].chunks + c.chunks.map_values(
                |k: chunker::ChunkModel| chunk_row(k),
            ),
            ..a.notes[path]
        },
    )
    &&& forall|s: Seq<char>, t: Seq<char>| #[trigger]
        db::edge_at(b, s, t) == if s == path && c.links.contains(t) && db::edge_at(a, s, t) is None {
            Some(wikilink_edge())
        } else {
            db::edge_at(a, s, t)
        }
}

proof fn lemma_reset(m: db::IndexModel, path: Seq<char>, mtime: i64, sha256: Seq<char>)
    ensures
        db::accepts_all(m, indexer::reset_ops(path, mtime, sha256)),
        note_renewed(
            m,
            db::run_all(m, indexer::reset_ops(path, mtime, sha256)),
            path,
            mtime,
            sha256,
            NoteContent { fields: seq![], tags: seq![], chunks: seq![], links: seq![] },
        ),
{
    let ops = indexer::reset_ops(path, mtime, sha256);
    let m1 = db::apply(m, ops[0]);
    let m2 = db::apply(m1, ops[1]);
    let m3 = db::apply(m2, ops[2]);
    let m4 = db::apply(m3, ops[3]);
    let m5 = db::apply(m4, ops[4]);
    assert(ops.take(1).drop_last() =~= ops.take(0));
    assert(ops.take(2).drop_last() =~= ops.take(1));
    assert(ops.take(3).drop_last() =~= ops.take(2));
    assert(ops.take(4).drop_last() =~= ops.take(3));
    assert(ops.drop_last() =~= ops.take(4));
    assert(db::run_all(m, ops.take(0)) == m);
    assert(db::run_all(m, ops.take(1)) == m1);
    assert(db::run_all(m, ops.take(2)) == m2);
    assert(db::run_all(m, ops.take(3)) == m3);
    assert(db::run_all(m, ops.take(4)) == m4);
    assert(db::run_all(m, ops) == m5);
    assert(db::accepts_all(m, ops.take(0)));
    assert(db::accepts_all(m, ops.take(1)));
    assert(db::accepts_all(m, ops.take(2)));
    assert(db::accepts_all(m, ops.take(3)));
    assert(db::accepts_all(m, ops.take(4)));
    let c = NoteContent { fields: seq![], tags: seq![], chunks: seq![], links: seq![] };
    let rows = rows_of(db::role_at(m, path), mtime, sha256, c);
    assert(c.tags.to_set() =~= Set::<Seq<char>>::empty());
    assert(rows.chunks =~= seq![]);
    assert(m5.notes[path] =~= rows);
    assert(m5.notes =~= m.notes.insert(path, rows));
}

proof fn lemma_fields(m: db::IndexModel, path: Seq<char>, fields: Seq<(Seq<char>, Seq<char>)>)
    requires
        m.notes.contains_key(path),
    ensures
        db::accepts_all(m, indexer::field_ops(path, fields)),
        note_grown(
            m,
            db::run_all(m, indexer::field_ops(path, fields)),
            path,
            NoteContent { fields, tags: seq![], chunks: seq![], links: seq![] },
        ),
    decreases fields.len(),
{
    let ops = indexer::field_ops(path, fields);
    let c = NoteContent { fields, tags: seq![], chunks: seq![], links: seq![] };
    assert(c.tags.to_set() =~= Set::<Seq<char>>::empty());
    assert(m.notes[path].tags.union(c.tags.to_set()) =~= m.notes[path].tags);
    assert(m.notes[path].chunks + c.chunks.map_values(|k: chunker::ChunkModel| chunk_row(k))
        =~= m.notes[path].chunks);
    if fields.len() == 0 {
        assert(db::run_all(m, ops).notes =~= m.notes.insert(path, m.notes[path]));
    } else {
        lemma_fields(m, path, fields.drop_last());
        assert(ops.drop_last() =~= indexer::field_ops(path, fields.drop_last()));
        assert(ops.last() == db::OpModel::InsertFrontmatter {
            path,
            key: fields.last().0,
            value: fields.last().1,
        });
        let b = db::run_all(m, ops);
        assert(b.notes =~= m.notes.insert(
            path,
            db::NoteRows {
                frontmatter: with_fields(m.notes[path].frontmatter, fields),
                ..m.notes[path]
            },
        ));
        let a = db::run_all(m, ops.drop_last());
        assert forall|s: Seq<char>, t: Seq<char>| #[trigger]
            db::edge_at(db::run_all(m, ops), s, t) == db::edge_at(m, s, t) by {
            assert(db::edge_at(a, s, t) == db::edge_at(m, s, t));
        }
    }
}

proof fn lemma_tags(m: db::IndexModel, path: Seq<char>, tags: Seq<Seq<char>>)
    requires
        m.notes.contains_key(path),
    ensures
        db::accepts_all(m, indexer::tag_ops(path, tags)),
        note_grown(
            m,
            db::run_all(m, indexer::tag_ops(path, tags)),
            path,
            NoteContent { fields: seq![], tags, chunks: seq![], links: seq![] },
        ),
    decreases tags.len(),
{
    let ops = indexer::tag_ops(path, tags);
    let c = NoteContent { fields: seq![], tags, chunks: seq![], links: seq![] };
    assert(m.notes[path].chunks + c.chunks.map_values(|k: chunker::ChunkModel| chunk_row(k))
        =~= m.notes[path].chunks);
    let had = m.notes[path].tags;
    if tags.len() == 0 {
        assert(had.union(tags.to_set()) =~= had);
        assert(db::run_all(m, ops).notes =~= m.notes.insert(path, m.notes[path]));
    } else {
        let before = tags.drop_last();
        lemma_tags(m, path, before);
        assert(ops.drop_last() =~= indexer::tag_ops(path, before));
        assert(ops.last() == db::OpModel::InsertTag { path, tag: tags.last() });
        assert(had.union(tags.to_set()) =~= had.union(before.to_set()).insert(tags.last())) by {
            lists::lemma_last_contains(tags);
        }
        assert(db::run_all(m, ops).notes =~= m.notes.insert(
            path,
            db::NoteRows { tags: had.union(tags.to_set()), ..m.notes[path] },
        ));
        let a = db::run_all(m, ops.drop_last());
        assert forall|s: Seq<char>, t: Seq<char>| #[trigger]
            db::edge_at(db::run_all(m, ops), s, t) == db::edge_at(m, s, t) by {
            assert(db::edge_at(a, s, t) == db::edge_at(m, s, t));
        }
    }
}

proof fn lemma_chunks(m: db::IndexModel, path: Seq<char>, chunks: Seq<chunker::ChunkModel>)
    requires
        m.notes.contains_key(path),
    ensures
        db::accepts_all(m, indexer::chunk_ops(path, chunks)),
        note_grown(
            m,
            db::run_all(m, indexer::chunk_ops(path, chunks)),
            path,
            NoteContent { fields: seq![], tags: seq![], chunks, links: seq![] },
        ),
    decreases chunks.len(),
{
    let ops = indexer::chunk_ops(path, chunks);
    let c = NoteContent { fields: seq![], tags: seq![], chunks, links: seq![] };
    let f = |k: chunker::ChunkModel| chunk_row(k);
    let had = m.notes[path].chunks;
    assert(c.tags.to_set() =~= Set::<Seq<char>>::empty());
    assert(m.notes[path].tags.union(c.tags.to_set()) =~= m.notes[path].tags);
    if chunks.len() == 0 {
        assert(had + chunks.map_values(f) =~= had);
        assert(db::run_all(m, ops).notes =~= m.notes.insert(path, m.notes[path]));
    } else {
        let before = chunks.drop_last();
        lemma_chunks(m, path, before);
        assert(ops.drop_last() =~= indexer::chunk_ops(path, before));
        let k = chunks.last();
        assert(ops.last() == db::OpModel::InsertChunk {
            path,
            heading: k.heading,
            content: k.content,
            embed_text: indexer::embed_text(k),
        });
        assert(had + chunks.map_values(f) =~= (had + before.map_values(f)).push(chunk_row(k)));
        assert(db::run_all(m, ops).notes =~= m.notes.insert(
            path,
            db::NoteRows { chunks: had + chunks.map_values(f), ..m.notes[path] },
        ));
        let a = db::run_all(m, ops.drop_last());
        assert forall|s: Seq<char>, t: Seq<char>| #[trigger]
            db::edge_at(db::run_all(m, ops), s, t) == db::edge_at(m, s, t) by {
            assert(db::edge_at(a, s, t) == db::edge_at(m, s, t));
        }
    }
}

proof fn lemma_links(m: db::IndexModel, path: Seq<char>, links: Seq<Seq<char>>)
    requires
        m.notes.contains_key(path),
    ensures
        db::accepts_all(m, indexer::link_ops(path, links)),
        note_grown(
            m,
            db::run_all(m, indexer::link_ops(path, links)),
            path,
            NoteContent { fields: seq![], tags: seq![], chunks: seq![], links },
        ),
    decreases links.len(),
{
    let ops = indexer::link_ops(path, links);
    let c = NoteContent { fields: seq![], tags: seq![], chunks: seq![], links };
    assert(c.tags.to_set() =~= Set::<Seq<char>>::empty());
    assert(m.notes[path].tags.union(c.tags.to_set()) =~= m.notes[path].tags);
    assert(m.notes[path].chunks + c.chunks.map_values(|k: chunker::ChunkModel| chunk_row(k))
        =~= m.notes[path].chunks);
    assert(m.notes =~= m.notes.insert(path, m.notes[path]));
    if links.len() > 0 {
        let before = links.drop_last();
        lemma_links(m, path, before);
        assert(ops.drop_last() =~= indexer::link_ops(path, before));
        assert(ops.last() == db::OpModel::InsertLink { source: path, target: links.last() });
        let a = db::run_all(m, ops.drop_last());
        let b = db::run_all(m, ops);
        lists::lemma_last_contains(links);
        assert forall|s: Seq<char>, t: Seq<char>| #[trigger]
            db::edge_at(b, s, t) == if s == path && links.contains(t) && db::edge_at(m, s, t) is None {
                Some(wikilink_edge())
            } else {
                db::edge_at(m, s, t)
            } by {
            assert(links.contains(t) <==> before.contains(t) || t == links.last());
            assert(db::edge_at(a, s, t) == if s == path && before.contains(t) && db::edge_at(
                m,
                s,
                t,
            ) is None {
                Some(wikilink_edge())
            } else {
                db::edge_at(m, s, t)
            });
        }
    }
}

proof fn lemma_rows(m: db::IndexModel, path: Seq<char>, c: NoteContent)
    requires
        m.notes.contains_key(path),
    ensures
        db::accepts_all(m, indexer::row_ops(path, c)),
        note_grown(m, db::run_all(m, indexer::row_ops(path, c)), path, c),
{
    let f = indexer::field_ops(path, c.fields);
    let t = indexer::tag_ops(path, c.tags);
    let k = indexer::chunk_ops(path, c.chunks);
    let l = indexer::link_ops(path, c.links);
    let m1 = db::run_all(m, f);
    let m2 = db::run_all(m1, t);
    let m3 = db::run_all(m2, k);
    let m4 = db::run_all(m3, l);
    lemma_fields(m, path, c.fields);
    lemma_tags(m1, path, c.tags);
    lemma_chunks(m2, path, c.chunks);
    lemma_links(m3, path, c.links);
    db::lemma_run_add(m, f, t);
    db::lemma_run_add(m, f + t, k);
    db::lemma_run_add(m, f + t + k, l);
    let g = |k: chunker::ChunkModel| chunk_row(k);
    let none = Seq::<Seq<char>>::empty();
    let rows = m.notes[path];
    assert(none.to_set() =~= Set::<Seq<char>>::empty());
    assert(rows.tags.union(none.to_set()) =~= rows.tags);
    assert(rows.tags.union(c.tags.to_set()).union(none.to_set()) =~= rows.tags.union(
        c.tags.to_set(),
    ));
    assert(rows.chunks + Seq::<chunker::ChunkModel>::empty().map_values(g) =~= rows.chunks);
    assert((rows.chunks + c.chunks.map_values(g)) + Seq::<chunker::ChunkModel>::empty().map_values(
        g,
    ) =~= rows.chunks + c.chunks.map_values(g));
    assert(m4.notes =~= m.notes.insert(
        path,
        db::NoteRows {
            frontmatter: with_fields(rows.frontmatter, c.fields),
            tags: rows.tags.union(c.tags.to_set()),
            chunks: rows.chunks + c.chunks.map_values(g),
            ..rows
        },
    ));
    assert forall|s: Seq<char>, t: Seq<char>| #[trigger]
        db::edge_at(m4, s, t) == if s == path && c.links.contains(t) && db::edge_at(m, s, t) is None {
            Some(wikilink_edge())
        } else {
            db::edge_at(m, s, t)
        } by {
        assert(db::edge_at(m1, s, t) == db::edge_at(m, s, t));
        assert(db::edge_at(m2, s, t) == db::edge_at(m1, s, t));
        assert(db::edge_at(m3, s, t) == db::edge_at(m2, s, t));
    }
}

// ── laws ─────────────────────────────────────────────────────────────────────

/// Re-indexing a changed file leaves in the index what the file contributes, and
/// nothing of what stood there before but the note's role; other notes and the
/// links from them stay as they were. The index takes every operation.
pub proof fn law_reindex_renews_note(
    m: db::IndexModel,
    vault: Seq<char>,
    path: Seq<char>,
    mtime: i64,
    content: Seq<char>,
    names: Map<Seq<char>, Seq<char>>,
)
    requires
        (match db::note_at(m, path) {
            Some(n) => n.sha256 != indexer::content_hash(content),
            None => true,
        }),
    ensures
        ({
            let stored = match db::note_at(m, path) {
                Some(n) => Some(n.sha256),
                None => None,
            };
            indexer::reindex_ops(vault, path, Some((mtime, content)), stored, names) matches Some(ops)
                && db::accepts_all(m, ops) && note_renewed(
                m,
                db::run_all(m, ops),
                path,
                mtime,
                indexer::content_hash(content),
                indexer::note_content(vault, content, names),
            )
        }),
{
    let sha = indexer::content_hash(content);
    let c = indexer::note_content(vault, content, names);
    let a = indexer::reset_ops(path, mtime, sha);
    let m1 = db::run_all(m, a);
    lemma_reset(m, path, mtime, sha);
    lemma_rows(m1, path, c);
    db::lemma_run_add(m, a, indexer::row_ops(path, c));
    let b = db::run_all(m1, indexer::row_ops(path, c));
    lemma_grown_from_reset(m, m1, b, path, mtime, sha, c);
}

proof fn lemma_grown_from_reset(
    m: db::IndexModel,
    m1: db::IndexModel,
    b: db::IndexModel,
    path: Seq<char>,
    mtime: i64,
    sha: Seq<char>,
    c: NoteContent,
)
    requires
        note_renewed(
            m,
            m1,
            path,
            mtime,
            sha,
            NoteContent { fields: seq![], tags: seq![], chunks: seq![], links: seq![] },
        ),
        note_grown(m1, b, path, c),
    ensures
        note_renewed(m, b, path, mtime, sha, c),
{
    let g = |k: chunker::ChunkModel| chunk_row(k);
    let rows = m1.notes[path];
    assert(rows.tags =~= Set::<Seq<char>>::empty());
    assert(rows.tags.union(c.tags.to_set()) =~= c.tags.to_set());
    assert(rows.chunks =~= seq![]);
    assert(rows.chunks + c.chunks.map_values(g) =~= c.chunks.map_values(g));
    assert(b.notes =~= m.notes.insert(path, rows_of(db::role_at(m, path), mtime, sha, c)));
    assert forall|s: Seq<char>, t: Seq<char>| #[trigger]
        db::edge_at(b, s, t) == if s == path {
            if c.links.contains(t) {
                Some(wikilink_edge())
            } else {
                None
            }
        } else {
            db::edge_at(m, s, t)
        } by {
        let _ = db::edge_at(m1, s, t);
    }
}

/// Re-indexing a file that is gone removes its note and the links from it, and
/// leaves all others as they were.
pub proof fn law_reindex_removes_note(
    m: db::IndexModel,
    vault: Seq<char>,
    path: Seq<char>,
    stored_sha256: Option<Seq<char>>,
    names: Map<Seq<char>, Seq<char>>,
)
    ensures
        (indexer::reindex_ops(vault, path, None, stored_sha256, names) matches Some(ops)
            && db::accepts_all(m, ops) && db::run_all(m, ops).notes == m.notes.remove(path)
            && forall|s: Seq<char>, t: Seq<char>| #[trigger]
            db::edge_at(db::run_all(m, ops), s, t) == if s == path {
                None
            } else {
                db::edge_at(m, s, t)
            }),
{
    let ops = seq![db::OpModel::DeleteNote { path }];
    assert(ops.drop_last() =~= seq![]);
    assert(db::run_all(m, ops.drop_last()) == m);
    assert(db::accepts_all(m, ops.drop_last()));
}

/// The file with this path, if there is one; if there are several, the last.
pub open spec fn file_at(files: Seq<NoteFileModel>, path: Seq<char>) -> Option<NoteFileModel>
    decreases files.len(),
{
    if files.len() == 0 {
        None
    } else if files.last().path == path {
        Some(files.last())
    } else {
        file_at(files.drop_last(), path)
    }
}

/// The changed file among the files whose path is `path`, if there is one; if
/// there are several, the last.
pub open spec fn changed_at(files: Seq<NoteFileModel>, path: Seq<char>) -> Option<NoteFileModel> {
    file_at(indexer::changed_files(files), path)
}

proof fn lemma_file_at(files: Seq<NoteFileModel>, path: Seq<char>)
    ensures
        match file_at(files, path) {
            Some(f) => f.path == path && files.contains(f),
            None => forall|i: int| 0 <= i < files.len() ==> (#[trigger] files[i]).path != path,
        },
    decreases files.len(),
{
    if files.len() > 0 {
        let before = files.drop_last();
        lemma_file_at(before, path);
        lists::lemma_last_contains(files);
        if file_at(files, path) is None {
            assert forall|i: int| 0 <= i < files.len() implies (#[trigger] files[i]).path
                != path by {
                if i < before.len() {
                    assert(before[i] == files[i]);
                }
            }
        }
    }
}

proof fn lemma_changed_file(files: Seq<NoteFileModel>, f: NoteFileModel)
    requires
        indexer::changed_files(files).contains(f),
    ensures
        files.contains(f),
    decreases files.len(),
{
    if files.len() > 0 {
        let before = files.drop_last();
        let had = indexer::changed_files(before);
        lists::lemma_last_contains(files);
        lists::lemma_push_contains(had, files.last());
        if had.contains(f) {
            lemma_changed_file(before, f);
        }
    }
}

proof fn lemma_changed_at(files: Seq<NoteFileModel>, path: Seq<char>)
    ensures
        match changed_at(files, path) {
            Some(f) => f.path == path && files.contains(f),
            None => true,
        },
{
    lemma_file_at(indexer::changed_files(files), path);
    if let Some(f) = changed_at(files, path) {
        lemma_changed_file(files, f);
    }
}

/// Whether no two files have the same path.
pub open spec fn distinct_paths(files: Seq<NoteFileModel>) -> bool {
    forall|i: int, j: int|
        0 <= i < j < files.len() ==> (#[trigger] files[i]).path != (#[trigger] files[j]).path
}

/// Whether files with the same path have the same content.
pub open spec fn same_contents(files: Seq<NoteFileModel>) -> bool {
    forall|i: int, j: int|
        0 <= i < j < files.len() && (#[trigger] files[i]).path == (#[trigger] files[j]).path
            ==> files[i].content == files[j].content
}

proof fn lemma_hash_of_last(files: Seq<NoteFileModel>, path: Seq<char>)
    ensures
        match indexer::hash_of_last(files, path) {
            Some(hash) => exists|i: int|
                0 <= i < files.len() && (#[trigger] files[i]).path == path && hash
                    == indexer::content_hash(files[i].content),
            None => forall|i: int| 0 <= i < files.len() ==> (#[trigger] files[i]).path != path,
        },
    decreases files.len(),
{
    if files.len() > 0 {
        let before = files.drop_last();
        lemma_hash_of_last(before, path);
        if files.last().path == path {
            assert(files[files.len() - 1].path == path);
        } else {
            match indexer::hash_of_last(before, path) {
                Some(hash) => {
                    let i = choose|i: int|
                        0 <= i < before.len() && (#[trigger] before[i]).path == path && hash
                            == indexer::content_hash(before[i].content);
                    assert(files[i] == before[i]);
                },
                None => {
                    assert forall|i: int| 0 <= i < files.len() implies (#[trigger] files[i]).path
                        != path by {
                        if i < before.len() {
                            assert(before[i] == files[i]);
                        }
                    }
                },
            }
        }
    }
}

/// A file that is listed more than once, with the same path and the same content,
/// is indexed once: no two of the changed files have the same path.
pub proof fn law_same_file_indexed_once(files: Seq<NoteFileModel>)
    requires
        same_contents(files),
    ensures
        distinct_paths(indexer::changed_files(files)),
    decreases files.len(),
{
    if files.len() > 0 {
        let before = files.drop_last();
        let last = files.last();
        assert(same_contents(before)) by {
            assert forall|i: int, j: int|
                0 <= i < j < before.len() && (#[trigger] before[i]).path == (
                #[trigger] before[j]).path implies before[i].content == before[j].content by {
                assert(files[i] == before[i] && files[j] == before[j]);
            }
        }
        law_same_file_indexed_once(before);
        let had = indexer::changed_files(before);
        let all = indexer::changed_files(files);
        assert forall|i: int, j: int| 0 <= i < j < all.len() implies (#[trigger] all[i]).path != (
        #[trigger] all[j]).path by {
            assert(all[i] == had[i]);
            if j < had.len() {
                assert(all[j] == had[j]);
            } else if had[i].path == last.path {
                assert(had.contains(had[i]));
                lemma_changed_file(before, had[i]);
                let k = choose|k: int| 0 <= k < before.len() && before[k] == had[i];
                lemma_hash_of_last(before, last.path);
                assert(before[k].path == last.path);
                let n = choose|n: int|
                    0 <= n < before.len() && (#[trigger] before[n]).path == last.path
                        && indexer::hash_of_last(before, last.path) == Some(
                        indexer::content_hash(before[n].content),
                    );
                assert(files[n].path == files[files.len() - 1].path);
                assert(files[n].content == last.content);
            }
        }
    }
}

proof fn lemma_unchanged_at(files: Seq<NoteFileModel>, path: Seq<char>, stored: Option<Seq<char>>)
    requires
        changed_at(files, path) is None,
        forall|i: int|
            0 <= i < files.len() && (#[trigger] files[i]).path == path ==> files[i].stored_sha256
                == stored,
    ensures
        forall|i: int|
            0 <= i < files.len() && (#[trigger] files[i]).path == path ==> Some(
                indexer::content_hash(files[i].content),
            ) == stored,
    decreases files.len(),
{
    if files.len() > 0 {
        let before = files.drop_last();
        let last = files.last();
        if indexer::changed(before, last) {
            assert(indexer::changed_files(files).drop_last() =~= indexer::changed_files(before));
        }
        assert forall|i: int| 0 <= i < before.len() && (#[trigger] before[i]).path
            == path implies before[i].stored_sha256 == stored by {
            assert(files[i] == before[i]);
        }
        lemma_unchanged_at(before, path, stored);
        assert forall|i: int| 0 <= i < files.len() && (#[trigger] files[i]).path
            == path implies Some(indexer::content_hash(files[i].content)) == stored by {
            if i < before.len() {
                assert(files[i] == before[i]);
            } else {
                lemma_hash_of_last(before, path);
                assert(files[i].stored_sha256 == stored);
            }
        }
    }
}

proof fn lemma_removals(m: db::IndexModel, stored: Seq<Seq<char>>, on_disk: Seq<Seq<char>>)
    ensures
        db::accepts_all(m, indexer::removal_ops(stored, on_disk)),
        forall|p: Seq<char>| #[trigger]
            db::note_at(db::run_all(m, indexer::removal_ops(stored, on_disk)), p) == if stored.contains(p)
                && !on_disk.contains(p) {
                None
            } else {
                db::note_at(m, p)
            },
        forall|s: Seq<char>, t: Seq<char>| #[trigger]
            db::edge_at(db::run_all(m, indexer::removal_ops(stored, on_disk)), s, t) == if stored.contains(s)
                && !on_disk.contains(s) {
                None
            } else {
                db::edge_at(m, s, t)
            },
    decreases stored.len(),
{
    let ops = indexer::removal_ops(stored, on_disk);
    let b = db::run_all(m, ops);
    if stored.len() > 0 {
        let before = stored.drop_last();
        let last = stored.last();
        lemma_removals(m, before, on_disk);
        let a = db::run_all(m, indexer::removal_ops(before, on_disk));
        lists::lemma_last_contains(stored);
        if !on_disk.contains(last) {
            assert(ops.drop_last() =~= indexer::removal_ops(before, on_disk));
            assert(ops.last() == db::OpModel::DeleteNote { path: last });
        }
        assert forall|p: Seq<char>| #[trigger]
            db::note_at(b, p) == if stored.contains(p) && !on_disk.contains(p) {
                None
            } else {
                db::note_at(m, p)
            } by {
            assert(db::note_at(a, p) == if before.contains(p) && !on_disk.contains(p) {
                None
            } else {
                db::note_at(m, p)
            });
        }
        assert forall|s: Seq<char>, t: Seq<char>| #[trigger]
            db::edge_at(b, s, t) == if stored.contains(s) && !on_disk.contains(s) {
                None
            } else {
                db::edge_at(m, s, t)
            } by {
            assert(db::edge_at(a, s, t) == if before.contains(s) && !on_disk.contains(s) {
                None
            } else {
                db::edge_at(m, s, t)
            });
        }
    }
}

/// Nothing of a note.
spec fn no_content() -> NoteContent {
    NoteContent { fields: seq![], tags: seq![], chunks: seq![], links: seq![] }
}

/// Whether a note is there, without rows.
spec fn cleared_at(m: db::IndexModel, path: Seq<char>) -> bool {
    match db::note_at(m, path) {
        Some(n) => n == rows_of(n.role, n.mtime, n.sha256, no_content()),
        None => false,
    }
}

proof fn lemma_resets(m: db::IndexModel, files: Seq<NoteFileModel>)
    ensures
        db::accepts_all(m, indexer::all_reset_ops(files)),
        forall|p: Seq<char>| #[trigger]
            db::note_at(db::run_all(m, indexer::all_reset_ops(files)), p) == match file_at(files, p) {
                Some(f) => Some(
                    rows_of(db::role_at(m, p), f.mtime, indexer::content_hash(f.content), no_content()),
                ),
                None => db::note_at(m, p),
            },
        forall|s: Seq<char>, t: Seq<char>| #[trigger]
            db::edge_at(db::run_all(m, indexer::all_reset_ops(files)), s, t) == if file_at(
                files,
                s,
            ) is Some {
                None
            } else {
                db::edge_at(m, s, t)
            },
    decreases files.len(),
{
    let b = db::run_all(m, indexer::all_reset_ops(files));
    if files.len() > 0 {
        let before = files.drop_last();
        let f = files.last();
        lemma_resets(m, before);
        let a = db::run_all(m, indexer::all_reset_ops(before));
        let sha = indexer::content_hash(f.content);
        db::lemma_run_add(m, indexer::all_reset_ops(before), indexer::reset_ops(f.path, f.mtime, sha));
        lemma_reset(a, f.path, f.mtime, sha);
        assert forall|p: Seq<char>| #[trigger]
            db::note_at(b, p) == match file_at(files, p) {
                Some(f) => Some(
                    rows_of(db::role_at(m, p), f.mtime, indexer::content_hash(f.content), no_content()),
                ),
                None => db::note_at(m, p),
            } by {
            assert(db::note_at(a, p) == match file_at(before, p) {
                Some(f) => Some(
                    rows_of(db::role_at(m, p), f.mtime, indexer::content_hash(f.content), no_content()),
                ),
                None => db::note_at(m, p),
            });
            assert(db::role_at(a, p) == db::role_at(m, p));
        }
        assert forall|s: Seq<char>, t: Seq<char>| #[trigger]
            db::edge_at(b, s, t) == if file_at(files, s) is Some {
                None
            } else {
                db::edge_at(m, s, t)
            } by {
            assert(db::edge_at(a, s, t) == if file_at(before, s) is Some {
                None
            } else {
                db::edge_at(m, s, t)
            });
        }
    }
}

proof fn lemma_all_rows(
    m: db::IndexModel,
    vault: Seq<char>,
    files: Seq<NoteFileModel>,
    names: Map<Seq<char>, Seq<char>>,
)
    requires
        distinct_paths(files),
        forall|p: Seq<char>|
            #[trigger] file_at(files, p) is Some ==> cleared_at(m, p),
        forall|s: Seq<char>, t: Seq<char>|
            file_at(files, s) is Some ==> #[trigger] db::edge_at(m, s, t) is None,
    ensures
        db::accepts_all(m, indexer::all_row_ops(vault, files, names)),
        forall|p: Seq<char>| #[trigger]
            db::note_at(db::run_all(m, indexer::all_row_ops(vault, files, names)), p) == match file_at(
                files,
                p,
            ) {
                Some(f) => Some(
                    rows_of(
                        db::role_at(m, p),
                        m.notes[p].mtime,
                        m.notes[p].sha256,
                        indexer::note_content(vault, f.content, names),
                    ),
                ),
                None => db::note_at(m, p),
            },
        forall|s: Seq<char>, t: Seq<char>| #[trigger]
            db::edge_at(db::run_all(m, indexer::all_row_ops(vault, files, names)), s, t) == match file_at(
                files,
                s,
            ) {
                Some(f) => if indexer::note_content(vault, f.content, names).links.contains(t) {
                    Some(wikilink_edge())
                } else {
                    None
                },
                None => db::edge_at(m, s, t),
            },
    decreases files.len(),
{
    let b = db::run_all(m, indexer::all_row_ops(vault, files, names));
    if files.len() > 0 {
        let before = files.drop_last();
        let last = files.last();
        let q = last.path;
        let c = indexer::note_content(vault, last.content, names);
        assert forall|p: Seq<char>| #[trigger]
            file_at(before, p) is Some implies cleared_at(m, p) by {
            assert(file_at(files, p) is Some);
        }
        assert forall|s: Seq<char>, t: Seq<char>|
            file_at(before, s) is Some implies #[trigger] db::edge_at(m, s, t) is None by {
            assert(file_at(files, s) is Some);
        }
        assert(distinct_paths(before));
        lemma_all_rows(m, vault, before, names);
        let a = db::run_all(m, indexer::all_row_ops(vault, before, names));
        assert(file_at(before, q) is None) by {
            lemma_file_at(before, q);
            if let Some(f) = file_at(before, q) {
                let k = choose|k: int| 0 <= k < before.len() && before[k] == f;
                assert(files[k].path != files[files.len() - 1].path);
            }
        }
        assert(file_at(files, q) == Some(last));
        assert(db::note_at(a, q) == db::note_at(m, q));
        db::lemma_run_add(m, indexer::all_row_ops(vault, before, names), indexer::row_ops(q, c));
        lemma_rows(a, q, c);
        lemma_fill(a, b, q, c);
        assert forall|p: Seq<char>| #[trigger]
            db::note_at(b, p) == match file_at(files, p) {
                Some(f) => Some(
                    rows_of(
                        db::role_at(m, p),
                        m.notes[p].mtime,
                        m.notes[p].sha256,
                        indexer::note_content(vault, f.content, names),
                    ),
                ),
                None => db::note_at(m, p),
            } by {
            assert(db::note_at(a, p) == match file_at(before, p) {
                Some(f) => Some(
                    rows_of(
                        db::role_at(m, p),
                        m.notes[p].mtime,
                        m.notes[p].sha256,
                        indexer::note_content(vault, f.content, names),
                    ),
                ),
                None => db::note_at(m, p),
            });
        }
        assert forall|s: Seq<char>, t: Seq<char>| #[trigger]
            db::edge_at(b, s, t) == match file_at(files, s) {
                Some(f) => if indexer::note_content(vault, f.content, names).links.contains(t) {
                    Some(wikilink_edge())
                } else {
                    None
                },
                None => db::edge_at(m, s, t),
            } by {
            assert(db::edge_at(a, s, t) == match file_at(before, s) {
                Some(f) => if indexer::note_content(vault, f.content, names).links.contains(t) {
                    Some(wikilink_edge())
                } else {
                    None
                },
                None => db::edge_at(m, s, t),
            });
            if s == q {
                assert(db::edge_at(m, s, t) is None);
            }
        }
    }
}

proof fn lemma_fill(a: db::IndexModel, b: db::IndexModel, path: Seq<char>, c: NoteContent)
    requires
        note_grown(a, b, path, c),
        a.notes[path] == rows_of(
            a.notes[path].role,
            a.notes[path].mtime,
            a.notes[path].sha256,
            no_content(),
        ),
    ensures
        b.notes == a.notes.insert(
            path,
            rows_of(a.notes[path].role, a.notes[path].mtime, a.notes[path].sha256, c),
        ),
{
    let g = |k: chunker::ChunkModel| chunk_row(k);
    let rows = a.notes[path];
    assert(rows.tags =~= Set::<Seq<char>>::empty());
    assert(rows.tags.union(c.tags.to_set()) =~= c.tags.to_set());
    assert(rows.chunks =~= seq![]);
    assert(rows.chunks + c.chunks.map_values(g) =~= c.chunks.map_values(g));
}

/// Whether the arguments of an index run are what the index and the vault hold:
/// `stored` are the notes in the index, and `files` are files of the vault, with
/// the hash that the index has of them. No two files that have changed have the
/// same path.
pub open spec fn run_of_index(
    m: db::IndexModel,
    vault: Seq<char>,
    md_files: Seq<Seq<char>>,
    stored: Seq<Seq<char>>,
    files: Seq<NoteFileModel>,
) -> bool {
    &&& forall|p: Seq<char>| #[trigger] m.notes.contains_key(p) <==> stored.contains(p)
    &&& distinct_paths(indexer::changed_files(files))
    &&& forall|i: int|
        0 <= i < files.len() ==> indexer::relative_paths(vault, md_files).contains(
            (#[trigger] files[i]).path,
        ) && files[i].stored_sha256 == db::sha256_at(m, files[i].path)
}

/// After an index run
/// - a changed file's note has what the file contributes, and its old role; the
///   links from it are those that the file contributes;
/// - a note of which the file is gone is gone too, with the links from it;
/// - every other note, and every link from one, is as it was.
///
/// The index takes every operation of the run.
pub proof fn law_index_run(
    m: db::IndexModel,
    vault: Seq<char>,
    md_files: Seq<Seq<char>>,
    stored: Seq<Seq<char>>,
    files: Seq<NoteFileModel>,
)
    requires
        run_of_index(m, vault, md_files, stored, files),
    ensures
        db::accepts_all(m, indexer::index_ops(vault, md_files, stored, files)),
        forall|p: Seq<char>| #[trigger]
            db::note_at(db::run_all(m, indexer::index_ops(vault, md_files, stored, files)), p)
                == match changed_at(files, p) {
                Some(f) => Some(
                    rows_of(
                        db::role_at(m, p),
                        f.mtime,
                        indexer::content_hash(f.content),
                        indexer::note_content(vault, f.content, wikilinks::names_of(md_files)),
                    ),
                ),
                None => if indexer::relative_paths(vault, md_files).contains(p) {
                    db::note_at(m, p)
                } else {
                    None
                },
            },
        forall|s: Seq<char>, t: Seq<char>| #[trigger]
            db::edge_at(db::run_all(m, indexer::index_ops(vault, md_files, stored, files)), s, t)
                == match changed_at(files, s) {
                Some(f) => if indexer::note_content(
                    vault,
                    f.content,
                    wikilinks::names_of(md_files),
                ).links.contains(t) {
                    Some(wikilink_edge())
                } else {
                    None
                },
                None => if m.notes.contains_key(s) && !indexer::relative_paths(
                    vault,
                    md_files,
                ).contains(s) {
                    None
                } else {
                    db::edge_at(m, s, t)
                },
            },
{
    let disk = indexer::relative_paths(vault, md_files);
    let names = wikilinks::names_of(md_files);
    let o1 = indexer::removal_ops(stored, disk);
    let again = indexer::changed_files(files);
    let o2 = indexer::all_reset_ops(again);
    let o3 = indexer::all_row_ops(vault, again, names);
    let m1 = db::run_all(m, o1);
    let m2 = db::run_all(m1, o2);
    let m3 = db::run_all(m2, o3);
    db::lemma_run_add(m, o1, o2);
    db::lemma_run_add(m, o1 + o2, o3);
    lemma_removals(m, stored, disk);
    lemma_resets(m1, again);
    assert forall|p: Seq<char>|
        #[trigger] file_at(again, p) is Some implies cleared_at(m2, p) && disk.contains(p) by {
        lemma_changed_at(files, p);
        let f = changed_at(files, p)->0;
        let k = choose|k: int| 0 <= k < files.len() && files[k] == f;
        assert(disk.contains(files[k].path));
        let _ = db::note_at(m2, p);
    }
    assert forall|s: Seq<char>, t: Seq<char>|
        file_at(again, s) is Some implies #[trigger] db::edge_at(m2, s, t) is None by {}
    lemma_all_rows(m2, vault, again, names);
    assert forall|p: Seq<char>| #[trigger]
        db::note_at(m3, p) == match changed_at(files, p) {
            Some(f) => Some(
                rows_of(
                    db::role_at(m, p),
                    f.mtime,
                    indexer::content_hash(f.content),
                    indexer::note_content(vault, f.content, names),
                ),
            ),
            None => if disk.contains(p) {
                db::note_at(m, p)
            } else {
                None
            },
        } by {
        let a = db::note_at(m1, p);
        let b = db::note_at(m2, p);
        let c = changed_at(files, p);
        if c is Some {
            assert(db::role_at(m1, p) == db::role_at(m, p));
            assert(db::role_at(m2, p) == db::role_at(m1, p));
        }
    }
    assert forall|s: Seq<char>, t: Seq<char>| #[trigger]
        db::edge_at(m3, s, t) == match changed_at(files, s) {
            Some(f) => if indexer::note_content(vault, f.content, names).links.contains(t) {
                Some(wikilink_edge())
            } else {
                None
            },
            None => if m.notes.contains_key(s) && !disk.contains(s) {
                None
            } else {
                db::edge_at(m, s, t)
            },
        } by {
        let a = db::edge_at(m1, s, t);
        let b = db::edge_at(m2, s, t);
    }
}

/// After an index run the index has the hash of every file that was looked at, so
/// that a second run, with the files as they were, changes nothing: it has no
/// operations at all. Files with the same path have the same content.
pub proof fn law_index_run_settles(
    m: db::IndexModel,
    vault: Seq<char>,
    md_files: Seq<Seq<char>>,
    stored: Seq<Seq<char>>,
    files: Seq<NoteFileModel>,
    stored_again: Seq<Seq<char>>,
    files_again: Seq<NoteFileModel>,
)
    requires
        run_of_index(m, vault, md_files, stored, files),
        run_of_index(
            db::run_all(m, indexer::index_ops(vault, md_files, stored, files)),
            vault,
            md_files,
            stored_again,
            files_again,
        ),
        same_contents(files),
        files_again.len() == files.len(),
        forall|i: int|
            0 <= i < files.len() ==> (#[trigger] files_again[i]).path == files[i].path
                && files_again[i].content == files[i].content,
    ensures
        forall|i: int|
            0 <= i < files.len() ==> db::sha256_at(
                db::run_all(m, indexer::index_ops(vault, md_files, stored, files)),
                (#[trigger] files[i]).path,
            ) == Some(indexer::content_hash(files[i].content)),
        indexer::index_ops(vault, md_files, stored_again, files_again) == Seq::<db::OpModel>::empty(),
{
    let after = db::run_all(m, indexer::index_ops(vault, md_files, stored, files));
    let disk = indexer::relative_paths(vault, md_files);
    let names = wikilinks::names_of(md_files);
    law_index_run(m, vault, md_files, stored, files);
    assert forall|i: int| 0 <= i < files.len() implies db::sha256_at(
        after,
        (#[trigger] files[i]).path,
    ) == Some(indexer::content_hash(files[i].content)) by {
        let p = files[i].path;
        let n = db::note_at(after, p);
        lemma_changed_at(files, p);
        match changed_at(files, p) {
            Some(f) => {
                let k = choose|k: int| 0 <= k < files.len() && files[k] == f;
                assert(files[k].path == files[i].path);
                assert(files[k].content == files[i].content);
            },
            None => {
                lemma_unchanged_at(files, p, db::sha256_at(m, p));
            },
        }
    }
    assert forall|i: int| 0 <= i < files_again.len() implies (
    #[trigger] files_again[i]).stored_sha256 == Some(
        indexer::content_hash(files_again[i].content),
    ) by {
        assert(files[i].path == files_again[i].path);
    }
    assert(same_contents(files_again)) by {
        assert forall|i: int, j: int|
            0 <= i < j < files_again.len() && (#[trigger] files_again[i]).path == (
            #[trigger] files_again[j]).path implies files_again[i].content
            == files_again[j].content by {
            assert(files[i].path == files[j].path);
        }
    }
    lemma_unchanged(files_again);
    assert forall|p: Seq<char>| #[trigger] stored_again.contains(p) implies disk.contains(p) by {
        assert(after.notes.contains_key(p));
        let n = db::note_at(after, p);
        lemma_changed_at(files, p);
        if let Some(f) = changed_at(files, p) {
            let k = choose|k: int| 0 <= k < files.len() && files[k] == f;
            assert(disk.contains(files[k].path));
        }
    }
    lemma_none_removed(stored_again, disk);
    assert(indexer::index_ops(vault, md_files, stored_again, files_again) =~= Seq::<
        db::OpModel,
    >::empty());
}

proof fn lemma_unchanged(files: Seq<NoteFileModel>)
    requires
        same_contents(files),
        forall|i: int|
            0 <= i < files.len() ==> (#[trigger] files[i]).stored_sha256 == Some(
                indexer::content_hash(files[i].content),
            ),
    ensures
        indexer::changed_files(files).len() == 0,
    decreases files.len(),
{
    if files.len() > 0 {
        let before = files.drop_last();
        let last = files[files.len() - 1];
        assert forall|i: int| 0 <= i < before.len() implies (#[trigger] before[i]).stored_sha256
            == Some(indexer::content_hash(before[i].content)) by {
            assert(before[i] == files[i]);
        }
        assert(same_contents(before)) by {
            assert forall|i: int, j: int|
                0 <= i < j < before.len() && (#[trigger] before[i]).path == (
                #[trigger] before[j]).path implies before[i].content == before[j].content by {
                assert(files[i] == before[i] && files[j] == before[j]);
            }
        }
        lemma_unchanged(before);
        lemma_hash_of_last(before, last.path);
        if let Some(hash) = indexer::hash_of_last(before, last.path) {
            let i = choose|i: int|
                0 <= i < before.len() && (#[trigger] before[i]).path == last.path && hash
                    == indexer::content_hash(before[i].content);
            assert(files[i].content == last.content);
        }
        assert(!indexer::changed(before, last));
    }
}

proof fn lemma_none_removed(stored: Seq<Seq<char>>, on_disk: Seq<Seq<char>>)
    requires
        forall|p: Seq<char>| #[trigger] stored.contains(p) ==> on_disk.contains(p),
    ensures
        indexer::removal_ops(stored, on_disk).len() == 0,
    decreases stored.len(),
{
    if stored.len() > 0 {
        let before = stored.drop_last();
        lists::lemma_last_contains(stored);
        assert forall|p: Seq<char>| #[trigger] before.contains(p) implies on_disk.contains(p) by {
            assert(stored.contains(p));
        }
        lemma_none_removed(before, on_disk);
        assert(stored.contains(stored.last()));
    }
}

/// Whether every link comes from a note that is in the index.
pub open spec fn sources_known(m: db::IndexModel) -> bool {
    forall|source: Seq<char>, target: Seq<char>| #[trigger]
        db::edge_at(m, source, target) is Some ==> m.notes.contains_key(source)
}

/// An index in which every link comes from a note stays so in an index run.
pub proof fn law_index_run_keeps_sources(
    m: db::IndexModel,
    vault: Seq<char>,
    md_files: Seq<Seq<char>>,
    stored: Seq<Seq<char>>,
    files: Seq<NoteFileModel>,
)
    requires
        run_of_index(m, vault, md_files, stored, files),
        sources_known(m),
    ensures
        sources_known(db::run_all(m, indexer::index_ops(vault, md_files, stored, files))),
{
    let after = db::run_all(m, indexer::index_ops(vault, md_files, stored, files));
    law_index_run(m, vault, md_files, stored, files);
    assert forall|s: Seq<char>, t: Seq<char>| #[trigger]
        db::edge_at(after, s, t) is Some implies after.notes.contains_key(s) by {
        let n = db::note_at(after, s);
        if changed_at(files, s) is None {
            assert(db::edge_at(m, s, t) is Some);
        }
    }
}

/// An index in which every link comes from a note stays so when a single file is
/// indexed anew, or is found to be gone.
pub proof fn law_reindex_keeps_sources(
    m: db::IndexModel,
    vault: Seq<char>,
    path: Seq<char>,
    disk: Option<(i64, Seq<char>)>,
    names: Map<Seq<char>, Seq<char>>,
)
    requires
        sources_known(m),
    ensures
        indexer::reindex_ops(vault, path, disk, db::sha256_at(m, path), names) matches Some(ops)
            ==> sources_known(db::run_all(m, ops)),
{
    if let Some(ops) = indexer::reindex_ops(vault, path, disk, db::sha256_at(m, path), names) {
        match disk {
            None => {
                law_reindex_removes_note(m, vault, path, db::sha256_at(m, path), names);
            },
            Some((mtime, content)) => {
                law_reindex_renews_note(m, vault, path, mtime, content, names);
            },
        }
        let after = db::run_all(m, ops);
        assert forall|s: Seq<char>, t: Seq<char>| #[trigger]
            db::edge_at(after, s, t) is Some implies after.notes.contains_key(s) by {
            if s != path {
                assert(db::edge_at(m, s, t) is Some);
            }
        }
    }
}

/// Whether an operation adds a chunk, whose embedding has to be computed, to a
/// note that is not one of the changed files.
pub open spec fn embeds_unchanged(op: db::OpModel, files: Seq<NoteFileModel>) -> bool {
    match op {
        db::OpModel::InsertChunk { path, .. } => changed_at(files, path) is None,
        _ => false,
    }
}

proof fn lemma_rows_embed(
    vault: Seq<char>,
    files: Seq<NoteFileModel>,
    names: Map<Seq<char>, Seq<char>>,
    k: int,
)
    requires
        0 <= k < indexer::all_row_ops(vault, files, names).len(),
    ensures
        match indexer::all_row_ops(vault, files, names)[k] {
            db::OpModel::InsertChunk { path, .. } => file_at(files, path) is Some,
            _ => true,
        },
    decreases files.len(),
{
    if files.len() > 0 {
        let before = files.drop_last();
        let f = files.last();
        let a = indexer::all_row_ops(vault, before, names);
        if k < a.len() {
            lemma_rows_embed(vault, before, names, k);
        } else {
            let c = indexer::note_content(vault, f.content, names);
            assert(indexer::all_row_ops(vault, files, names)[k] == indexer::row_ops(f.path, c)[k - a.len()]);
            assert(file_at(files, f.path) is Some);
        }
    }
}

proof fn lemma_resets_embed(files: Seq<NoteFileModel>, all: Seq<NoteFileModel>, k: int)
    requires
        0 <= k < indexer::all_reset_ops(files).len(),
    ensures
        !embeds_unchanged(indexer::all_reset_ops(files)[k], all),
    decreases files.len(),
{
    if files.len() > 0 {
        let before = files.drop_last();
        let a = indexer::all_reset_ops(before);
        if k < a.len() {
            lemma_resets_embed(before, all, k);
        }
    }
}

proof fn lemma_removals_embed(
    stored: Seq<Seq<char>>,
    on_disk: Seq<Seq<char>>,
    files: Seq<NoteFileModel>,
    k: int,
)
    requires
        0 <= k < indexer::removal_ops(stored, on_disk).len(),
    ensures
        !embeds_unchanged(indexer::removal_ops(stored, on_disk)[k], files),
    decreases stored.len(),
{
    if stored.len() > 0 {
        if k < indexer::removal_ops(stored.drop_last(), on_disk).len() {
            lemma_removals_embed(stored.drop_last(), on_disk, files, k);
        }
    }
}

/// Only changed files are embedded anew: every chunk that an index run adds
/// belongs to one.
pub proof fn law_only_changed_files_embedded(
    vault: Seq<char>,
    md_files: Seq<Seq<char>>,
    stored: Seq<Seq<char>>,
    files: Seq<NoteFileModel>,
    k: int,
)
    requires
        0 <= k < indexer::index_ops(vault, md_files, stored, files).len(),
    ensures
        !embeds_unchanged(indexer::index_ops(vault, md_files, stored, files)[k], files),
{
    let disk = indexer::relative_paths(vault, md_files);
    let names = wikilinks::names_of(md_files);
    let a = indexer::removal_ops(stored, disk);
    let again = indexer::changed_files(files);
    let b = indexer::all_reset_ops(again);
    if k < a.len() {
        lemma_removals_embed(stored, disk, files, k);
    } else if k < a.len() + b.len() {
        lemma_resets_embed(again, files, k - a.len());
    } else {
        lemma_rows_embed(vault, again, names, k - a.len() - b.len());
    }
}

/// The rows of a note hold what the note contributes: each field under its key, of
/// two with the same key the last; each tag; and each chunk in its place, with its
/// heading, its content and the text that its embedding is computed from.
pub proof fn law_rows_of(
    role: db::NoteRole,
    mtime: i64,
    sha256: Seq<char>,
    c: NoteContent,
    key: Seq<char>,
)
    ensures
        ({
            let r = rows_of(role, mtime, sha256, c);
            &&& r.role == role && r.mtime == mtime && r.sha256 == sha256
            &&& forall|t: Seq<char>| #[trigger] r.tags.contains(t) <==> c.tags.contains(t)
            &&& r.chunks.len() == c.chunks.len()
            &&& forall|i: int|
                0 <= i < c.chunks.len() ==> (#[trigger] r.chunks[i]).heading == c.chunks[i].heading
                    && r.chunks[i].content == c.chunks[i].content && r.chunks[i].embed_text
                    == indexer::embed_text(c.chunks[i])
            &&& forall|i: int| #[trigger]
                last_field(c.fields, i, key) ==> r.frontmatter.contains_key(key)
                    && r.frontmatter[key] == c.fields[i].1
            &&& r.frontmatter.contains_key(key) ==> exists|i: int| #[trigger]
                last_field(c.fields, i, key)
        }),
{
    lemma_with_fields(c.fields, key);
}

/// Whether field `i` is the last one with this key.
pub open spec fn last_field(fields: Seq<(Seq<char>, Seq<char>)>, i: int, key: Seq<char>) -> bool {
    &&& 0 <= i < fields.len()
    &&& fields[i].0 == key
    &&& forall|j: int| i < j < fields.len() ==> (#[trigger] fields[j]).0 != key
}

proof fn lemma_with_fields(fields: Seq<(Seq<char>, Seq<char>)>, key: Seq<char>)
    ensures
        forall|i: int| #[trigger]
            last_field(fields, i, key) ==> with_fields(Map::empty(), fields).contains_key(key)
                && with_fields(Map::empty(), fields)[key] == fields[i].1,
        with_fields(Map::empty(), fields).contains_key(key) ==> exists|i: int| #[trigger]
            last_field(fields, i, key),
    decreases fields.len(),
{
    if fields.len() > 0 {
        let before = fields.drop_last();
        let n = fields.len() - 1;
        lemma_with_fields(before, key);
        let all = with_fields(Map::empty(), fields);
        assert forall|i: int| #[trigger] last_field(fields, i, key) implies all.contains_key(key)
            && all[key] == fields[i].1 by {
            if i < n {
                assert(fields[n].0 != key);
                assert(last_field(before, i, key)) by {
                    assert forall|j: int| i < j < before.len() implies (#[trigger] before[j]).0
                        != key by {
                        assert(fields[j].0 != key);
                    }
                }
            }
        }
        if all.contains_key(key) {
            if fields[n].0 == key {
                assert(last_field(fields, n, key));
            } else {
                let i = choose|i: int| #[trigger] last_field(before, i, key);
                assert forall|j: int| i < j < fields.len() implies (#[trigger] fields[j]).0
                    != key by {
                    if j < n {
                        assert(before[j].0 != key);
                    }
                }
                assert(last_field(fields, i, key));
            }
        }
    }
}

} // verus!
