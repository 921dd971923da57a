//! Indexing: what a note file contributes to the index, and which operations
//! bring the index up to date with the vault.
use sha2::{Digest, Sha256};
use vstd::hash_map::StringHashMap;
use vstd::prelude::*;
use vstd::string::StringExecFns;

use crate::db;
use crate::db::DbOp;
use crate::lists;
use crate::paths;
pub use crate::paths::vault_relative;
use crate::text::same_text;

pub mod chunker;
pub mod frontmatter;
pub mod outcome;
pub mod roles;
pub mod tags;
pub mod versions;
pub mod wikilinks;

use chunker::Chunk;
use wikilinks::NameMap;

verus! {

// ── content hashes ───────────────────────────────────────────────────────────

/// The SHA-256 digest of bytes, as `sha2::Sha256` computes it.
pub uninterp spec fn sha256_digest(data: Seq<u8>) -> Seq<u8>;

/// Calls `sha2::Sha256` on the bytes: `new`, one `update`, `finalize`. The digest
/// is named, not described, but for its length of 32 bytes.
#[verifier::external_body]
fn sha256_of(data: &[u8]) -> (r: Vec<u8>)
    ensures
        r@ == sha256_digest(data@),
        r@.len() == 32,
{
    let mut h = Sha256::new();
    h.update(data);
    h.finalize().to_vec()
}

/// A hexadecimal digit in lower case.
pub open spec fn hex_digit(n: u8) -> char {
    if n < 10 {
        (48 + n) as char
    } else {
        (87 + n) as char
    }
}

/// Bytes in lower case hexadecimal, two digits each, the high one first.
pub open spec fn hex_text(data: Seq<u8>) -> Seq<char> {
    Seq::new(
        2 * data.len(),
        |i: int| hex_digit(if i % 2 == 0 { data[i / 2] / 16 } else { data[i / 2] % 16 }),
    )
}

/// Calls `hex::encode`, which writes bytes in lower case hexadecimal.
#[verifier::external_body]
fn hex_of(data: &[u8]) -> (r: String)
    ensures
        r@ == hex_text(data@),
{
    hex::encode(data)
}

/// The hash by which a changed file is told from an unchanged one.
pub open spec fn content_hash(content: Seq<char>) -> Seq<char> {
    hex_text(sha256_digest(vstd::utf8::encode_utf8(content)))
}

/// The SHA-256 hash of a text in UTF-8, in lower case hexadecimal.
pub fn sha256(content: &str) -> (r: String)
    ensures
        r@ == content_hash(content@),
        r@.len() == 64,
{
    hex_of(sha256_of(content.as_bytes()).as_slice())
}

// ── what a note contributes ──────────────────────────────────────────────────

/// What a note file contributes to the index.
pub struct ParsedNote {
    pub fields: Vec<(String, String)>,
    /// Tags from the frontmatter, and inline ones behind them.
    pub tags: Vec<String>,
    pub chunks: Vec<Chunk>,
    /// Vault-relative paths of the notes that its wikilinks lead to.
    pub links: Vec<String>,
}

/// What a [`ParsedNote`] holds.
pub struct NoteContent {
    pub fields: Seq<(Seq<char>, Seq<char>)>,
    pub tags: Seq<Seq<char>>,
    pub chunks: Seq<chunker::ChunkModel>,
    pub links: Seq<Seq<char>>,
}

/// The texts of the pairs.
pub open spec fn pair_texts(v: Seq<(String, String)>) -> Seq<(Seq<char>, Seq<char>)> {
    v.map_values(|f: (String, String)| (f.0@, f.1@))
}

impl DeepView for ParsedNote {
    type V = NoteContent;

    open spec fn deep_view(&self) -> NoteContent {
        NoteContent {
            fields: pair_texts(self.fields@),
            tags: self.tags.deep_view(),
            chunks: self.chunks.deep_view(),
            links: self.links.deep_view(),
        }
    }
}

/// The vault-relative paths of the notes that wikilink targets lead to; targets
/// that lead nowhere are left out.
pub open spec fn linked_notes(
    vault: Seq<char>,
    targets: Seq<Seq<char>>,
    names: Map<Seq<char>, Seq<char>>,
) -> Seq<Seq<char>>
    decreases targets.len(),
{
    if targets.len() == 0 {
        seq![]
    } else {
        let before = linked_notes(vault, targets.drop_last(), names);
        match wikilinks::resolved(targets.last(), names) {
            Some(file) => before.push(paths::relative_path(vault, file)),
            None => before,
        }
    }
}

/// What a note with this text contributes to the index: the fields and tags of
/// its frontmatter, the inline tags and the chunks of its body, and the notes
/// that the wikilinks anywhere in it lead to.
pub open spec fn note_content(
    vault: Seq<char>,
    content: Seq<char>,
    names: Map<Seq<char>, Seq<char>>,
) -> NoteContent {
    let (fm, body) = frontmatter::parsed(content);
    NoteContent {
        fields: fm.fields,
        tags: fm.tags + tags::inline_tags(body),
        chunks: chunker::chunks(body),
        links: linked_notes(vault, wikilinks::targets(content), names),
    }
}

/// The text that the embedding of a chunk is computed from: its heading, if it
/// has one, on a line of its own, and its content.
pub open spec fn embed_text(c: chunker::ChunkModel) -> Seq<char> {
    if c.heading.len() == 0 {
        c.content
    } else {
        c.heading.push('\n') + c.content
    }
}

/// Parses a note file.
pub fn parse_note(vault: &str, content: &str, name_map: &NameMap) -> (r: ParsedNote)
    ensures
        r.deep_view() == note_content(vault@, content@, name_map@),
{
    let (fm, body) = frontmatter::parse(content);
    let fields = fm.fields;
    let mut all_tags = fm.tags;
    let mut inline = tags::extract_inline_tags(body.as_str());
    let ghost t1 = all_tags.deep_view();
    let ghost t2 = inline.deep_view();
    all_tags.append(&mut inline);
    assert(all_tags.deep_view() =~= t1 + t2);
    let chunks = chunker::chunk(body.as_str());
    let targets = wikilinks::extract_targets(content);
    let ghost all = targets.deep_view();
    let mut links: Vec<String> = Vec::new();
    let mut i: usize = 0;
    assert(links.deep_view() =~= linked_notes(vault@, all.take(0), name_map@));
    while i < targets.len()
        invariant
            i <= targets@.len(),
            all == targets.deep_view(),
            links.deep_view() == linked_notes(vault@, all.take(i as int), name_map@),
        decreases targets@.len() - i,
    {
        proof {
            assert(all.take(i + 1).drop_last() =~= all.take(i as int));
            assert(all.take(i + 1).last() == targets@[i as int]@);
        }
        let ghost had = links.deep_view();
        if let Some(file) = wikilinks::resolve(targets[i].as_str(), name_map) {
            let rel = vault_relative(vault, file.as_str());
            links.push(rel);
            assert(links.deep_view() =~= had.push(rel@));
        }
        i = i + 1;
    }
    assert(all.take(i as int) =~= all);
    ParsedNote { fields, tags: all_tags, chunks, links }
}

// ── the operations for a note ────────────────────────────────────────────────

/// The operations that make a note known, and clear what was known of it.
pub open spec fn reset_ops(path: Seq<char>, mtime: i64, sha256: Seq<char>) -> Seq<db::OpModel> {
    seq![
        db::OpModel::UpsertNote { path, mtime, sha256 },
        db::OpModel::DeleteChunks { path },
        db::OpModel::DeleteTags { path },
        db::OpModel::DeleteFrontmatter { path },
        db::OpModel::DeleteLinks { path },
    ]
}

/// The operations that add frontmatter fields.
pub open spec fn field_ops(path: Seq<char>, fields: Seq<(Seq<char>, Seq<char>)>) -> Seq<
    db::OpModel,
> {
    fields.map_values(
        |f: (Seq<char>, Seq<char>)|
            db::OpModel::InsertFrontmatter { path, key: f.0, value: f.1 },
    )
}

/// The operations that add tags.
pub open spec fn tag_ops(path: Seq<char>, tags: Seq<Seq<char>>) -> Seq<db::OpModel> {
    tags.map_values(|tag: Seq<char>| db::OpModel::InsertTag { path, tag })
}

/// The operations that add chunks.
pub open spec fn chunk_ops(path: Seq<char>, chunks: Seq<chunker::ChunkModel>) -> Seq<
    db::OpModel,
> {
    chunks.map_values(
        |c: chunker::ChunkModel|
            db::OpModel::InsertChunk {
                path,
                heading: c.heading,
                content: c.content,
                embed_text: embed_text(c),
            },
    )
}

/// The operations that add links.
pub open spec fn link_ops(path: Seq<char>, links: Seq<Seq<char>>) -> Seq<db::OpModel> {
    links.map_values(|target: Seq<char>| db::OpModel::InsertLink { source: path, target })
}

/// The operations that add everything a note contributes.
pub open spec fn row_ops(path: Seq<char>, c: NoteContent) -> Seq<db::OpModel> {
    field_ops(path, c.fields) + tag_ops(path, c.tags) + chunk_ops(path, c.chunks) + link_ops(
        path,
        c.links,
    )
}

/// Adds [`reset_ops`] to the operations.
fn push_reset(ops: &mut Vec<DbOp>, path: &String, mtime: i64, sha256: String)
    ensures
        final(ops).deep_view() == old(ops).deep_view() + reset_ops(path@, mtime, sha256@),
{
    let ghost before = ops.deep_view();
    ops.push(DbOp::UpsertNote { path: path.clone(), mtime, sha256 });
    ops.push(DbOp::DeleteChunks { path: path.clone() });
    ops.push(DbOp::DeleteTags { path: path.clone() });
    ops.push(DbOp::DeleteFrontmatter { path: path.clone() });
    ops.push(DbOp::DeleteLinks { path: path.clone() });
    assert(ops.deep_view() =~= before + reset_ops(path@, mtime, sha256@));
}

/// Adds [`row_ops`] to the operations.
fn push_rows(ops: &mut Vec<DbOp>, path: &String, note: &ParsedNote)
    ensures
        final(ops).deep_view() == old(ops).deep_view() + row_ops(path@, note.deep_view()),
{
    let ghost start = ops.deep_view();
    let ghost fields = field_ops(path@, note.deep_view().fields);
    let ghost tags = tag_ops(path@, note.deep_view().tags);
    let ghost chunks = chunk_ops(path@, note.deep_view().chunks);
    let ghost links = link_ops(path@, note.deep_view().links);
    let mut i: usize = 0;
    assert(start + fields.take(0) =~= start);
    while i < note.fields.len()
        invariant
            i <= note.fields@.len(),
            fields == field_ops(path@, note.deep_view().fields),
            ops.deep_view() == start + fields.take(i as int),
        decreases note.fields@.len() - i,
    {
        let ghost had = ops.deep_view();
        let key = note.fields[i].0.clone();
        let value = note.fields[i].1.clone();
        ops.push(DbOp::InsertFrontmatter { path: path.clone(), key, value });
        proof {
            assert(ops.deep_view() =~= had.push(fields[i as int]));
            assert(fields.take(i + 1) =~= fields.take(i as int).push(fields[i as int]));
        }
        i = i + 1;
    }
    assert(fields.take(i as int) =~= fields);
    let ghost start_tags = ops.deep_view();
    let mut j: usize = 0;
    assert(start_tags + tags.take(0) =~= start_tags);
    while j < note.tags.len()
        invariant
            j <= note.tags@.len(),
            tags == tag_ops(path@, note.deep_view().tags),
            ops.deep_view() == start_tags + tags.take(j as int),
        decreases note.tags@.len() - j,
    {
        let ghost had = ops.deep_view();
        let tag = note.tags[j].clone();
        ops.push(DbOp::InsertTag { path: path.clone(), tag });
        proof {
            assert(ops.deep_view() =~= had.push(tags[j as int]));
            assert(tags.take(j + 1) =~= tags.take(j as int).push(tags[j as int]));
        }
        j = j + 1;
    }
    assert(tags.take(j as int) =~= tags);
    let ghost start_chunks = ops.deep_view();
    let mut k: usize = 0;
    assert(start_chunks + chunks.take(0) =~= start_chunks);
    while k < note.chunks.len()
        invariant
            k <= note.chunks@.len(),
            chunks == chunk_ops(path@, note.deep_view().chunks),
            ops.deep_view() == start_chunks + chunks.take(k as int),
        decreases note.chunks@.len() - k,
    {
        let ghost had = ops.deep_view();
        let c = &note.chunks[k];
        let embed_text = chunk_embed_text(c);
        ops.push(
            DbOp::InsertChunk {
                path: path.clone(),
                heading: c.heading.clone(),
                content: c.content.clone(),
                embed_text,
            },
        );
        proof {
            assert(ops.deep_view() =~= had.push(chunks[k as int]));
            assert(chunks.take(k + 1) =~= chunks.take(k as int).push(chunks[k as int]));
        }
        k = k + 1;
    }
    assert(chunks.take(k as int) =~= chunks);
    let ghost start_links = ops.deep_view();
    let mut n: usize = 0;
    assert(start_links + links.take(0) =~= start_links);
    while n < note.links.len()
        invariant
            n <= note.links@.len(),
            links == link_ops(path@, note.deep_view().links),
            ops.deep_view() == start_links + links.take(n as int),
        decreases note.links@.len() - n,
    {
        let ghost had = ops.deep_view();
        let target = note.links[n].clone();
        ops.push(DbOp::InsertLink { source: path.clone(), target });
        proof {
            assert(ops.deep_view() =~= had.push(links[n as int]));
            assert(links.take(n + 1) =~= links.take(n as int).push(links[n as int]));
        }
        n = n + 1;
    }
    assert(links.take(n as int) =~= links);
    assert(ops.deep_view() =~= start + row_ops(path@, note.deep_view()));
}

/// Computes [`embed_text`].
pub fn chunk_embed_text(c: &Chunk) -> (r: String)
    ensures
        r@ == embed_text(c.deep_view()),
{
    if c.heading.as_str().is_empty() {
        c.content.clone()
    } else {
        let mut r = c.heading.clone();
        r.push('\n');
        r.append(c.content.as_str());
        r
    }
}

// ── indexing the vault ───────────────────────────────────────────────────────

/// A note file to index, as it stands on disk, and what the index has of it.
pub struct NoteFile {
    /// The vault-relative path.
    pub path: String,
    pub mtime: i64,
    pub content: String,
    /// The content hash in the index, if the note is in it.
    pub stored_sha256: Option<String>,
}

/// What a [`NoteFile`] holds.
pub struct NoteFileModel {
    pub path: Seq<char>,
    pub mtime: i64,
    pub content: Seq<char>,
    pub stored_sha256: Option<Seq<char>>,
}

impl DeepView for NoteFile {
    type V = NoteFileModel;

    open spec fn deep_view(&self) -> NoteFileModel {
        NoteFileModel {
            path: self.path@,
            mtime: self.mtime,
            content: self.content@,
            stored_sha256: self.stored_sha256.deep_view(),
        }
    }
}

impl NoteFile {
    /// The note file at `file`.
    pub fn new(
        vault: &str,
        file: &str,
        mtime: i64,
        content: String,
        stored_sha256: Option<String>,
    ) -> (r: NoteFile)
        ensures
            r.path@ == paths::relative_path(vault@, file@),
            r.mtime == mtime,
            r.content@ == content@,
            r.stored_sha256.deep_view() == stored_sha256.deep_view(),
    {
        NoteFile { path: vault_relative(vault, file), mtime, content, stored_sha256 }
    }
}

/// The hash of the last of the files that has this path, if there is one.
pub open spec fn hash_of_last(files: Seq<NoteFileModel>, path: Seq<char>) -> Option<Seq<char>>
    decreases files.len(),
{
    if files.len() == 0 {
        None
    } else if files.last().path == path {
        Some(content_hash(files.last().content))
    } else {
        hash_of_last(files.drop_last(), path)
    }
}

/// The content hash that is known of a file once those before it have been looked
/// at: that of the last of them with its path, or else the one in the index.
pub open spec fn known_hash(before: Seq<NoteFileModel>, f: NoteFileModel) -> Option<Seq<char>> {
    match hash_of_last(before, f.path) {
        Some(hash) => Some(hash),
        None => f.stored_sha256,
    }
}

/// Whether the content of a file is not the one that is known of it.
pub open spec fn changed(before: Seq<NoteFileModel>, f: NoteFileModel) -> bool {
    known_hash(before, f) != Some(content_hash(f.content))
}

/// Those of the files that have changed.
pub open spec fn changed_files(files: Seq<NoteFileModel>) -> Seq<NoteFileModel>
    decreases files.len(),
{
    if files.len() == 0 {
        seq![]
    } else if changed(files.drop_last(), files.last()) {
        changed_files(files.drop_last()).push(files.last())
    } else {
        changed_files(files.drop_last())
    }
}

/// The operations that remove the notes that are on disk no longer.
pub open spec fn removal_ops(stored: Seq<Seq<char>>, on_disk: Seq<Seq<char>>) -> Seq<db::OpModel>
    decreases stored.len(),
{
    if stored.len() == 0 {
        seq![]
    } else {
        let before = removal_ops(stored.drop_last(), on_disk);
        if on_disk.contains(stored.last()) {
            before
        } else {
            before.push(db::OpModel::DeleteNote { path: stored.last() })
        }
    }
}

/// The operations that clear what was known of files.
pub open spec fn all_reset_ops(files: Seq<NoteFileModel>) -> Seq<db::OpModel>
    decreases files.len(),
{
    if files.len() == 0 {
        seq![]
    } else {
        let f = files.last();
        all_reset_ops(files.drop_last()) + reset_ops(f.path, f.mtime, content_hash(f.content))
    }
}

/// The operations that add what files contribute.
pub open spec fn all_row_ops(
    vault: Seq<char>,
    files: Seq<NoteFileModel>,
    names: Map<Seq<char>, Seq<char>>,
) -> Seq<db::OpModel>
    decreases files.len(),
{
    if files.len() == 0 {
        seq![]
    } else {
        let f = files.last();
        all_row_ops(vault, files.drop_last(), names) + row_ops(
            f.path,
            note_content(vault, f.content, names),
        )
    }
}

/// The vault-relative paths of files.
pub open spec fn relative_paths(vault: Seq<char>, files: Seq<Seq<char>>) -> Seq<Seq<char>> {
    files.map_values(|f: Seq<char>| paths::relative_path(vault, f))
}

/// The operations of an index run: notes that are gone are removed; then all
/// changed files are cleared; then what they contribute is added.
pub open spec fn index_ops(
    vault: Seq<char>,
    md_files: Seq<Seq<char>>,
    stored: Seq<Seq<char>>,
    files: Seq<NoteFileModel>,
) -> Seq<db::OpModel> {
    removal_ops(stored, relative_paths(vault, md_files)) + all_reset_ops(changed_files(files))
        + all_row_ops(vault, changed_files(files), wikilinks::names_of(md_files))
}

/// The files at these places.
spec fn picked(files: Seq<NoteFileModel>, at: Seq<usize>) -> Seq<NoteFileModel> {
    at.map_values(|k: usize| files[k as int])
}

/// Whether a map has the hash of the last file of each path.
spec fn lists_hashes(hashes: Map<Seq<char>, String>, files: Seq<NoteFileModel>) -> bool {
    forall|p: Seq<char>|
        match #[trigger] hash_of_last(files, p) {
            Some(hash) => hashes.contains_key(p) && hashes[p]@ == hash,
            None => !hashes.contains_key(p),
        }
}

/// The places of the files that have changed.
fn changed_places(files: &Vec<NoteFile>) -> (r: Vec<usize>)
    ensures
        forall|j: int| 0 <= j < r@.len() ==> #[trigger] r@[j] < files@.len(),
        picked(files.deep_view(), r@) == changed_files(files.deep_view()),
{
    let ghost all = files.deep_view();
    let mut places: Vec<usize> = Vec::new();
    let mut hashes: StringHashMap<String> = StringHashMap::new();
    let mut k: usize = 0;
    assert(picked(all, places@) =~= changed_files(all.take(0)));
    while k < files.len()
        invariant
            k <= files@.len(),
            all == files.deep_view(),
            lists_hashes(hashes@, all.take(k as int)),
            forall|j: int| 0 <= j < places@.len() ==> #[trigger] places@[j] < files@.len(),
            picked(all, places@) == changed_files(all.take(k as int)),
        decreases files@.len() - k,
    {
        let f = &files[k];
        let ghost before = all.take(k as int);
        let ghost had = hashes@;
        proof {
            assert(all.take(k + 1).drop_last() =~= before);
            assert(all.take(k + 1).last() == f.deep_view());
            let _ = hash_of_last(before, f.path@);
        }
        let sha = sha256(f.content.as_str());
        let unchanged = match hashes.get(f.path.as_str()) {
            Some(s) => same_text(s.as_str(), sha.as_str()),
            None => match &f.stored_sha256 {
                Some(s) => same_text(s.as_str(), sha.as_str()),
                None => false,
            },
        };
        assert(unchanged <==> !changed(before, f.deep_view()));
        if !unchanged {
            let ghost picks = picked(all, places@);
            places.push(k);
            assert(picked(all, places@) =~= picks.push(f.deep_view()));
        }
        let path = f.path.clone();
        hashes.insert(path, sha);
        assert(lists_hashes(hashes@, all.take(k + 1))) by {
            assert forall|p: Seq<char>|
                match #[trigger] hash_of_last(all.take(k + 1), p) {
                    Some(hash) => hashes@.contains_key(p) && hashes@[p]@ == hash,
                    None => !hashes@.contains_key(p),
                } by {
                let h = hash_of_last(before, p);
            }
        }
        k = k + 1;
    }
    assert(all.take(k as int) =~= all);
    places
}

/// The set of the vault-relative paths of files.
fn on_disk_set(vault: &str, md_files: &Vec<String>) -> (r: StringHashMap<bool>)
    ensures
        forall|p: Seq<char>|
            #[trigger] r@.contains_key(p) <==> relative_paths(
                vault@,
                md_files.deep_view(),
            ).contains(p),
{
    let ghost all = relative_paths(vault@, md_files.deep_view());
    let mut set: StringHashMap<bool> = StringHashMap::new();
    let mut i: usize = 0;
    while i < md_files.len()
        invariant
            i <= md_files@.len(),
            all == relative_paths(vault@, md_files.deep_view()),
            forall|p: Seq<char>|
                #[trigger] set@.contains_key(p) <==> all.take(i as int).contains(p),
        decreases md_files@.len() - i,
    {
        let rel = vault_relative(vault, md_files[i].as_str());
        set.insert(rel, true);
        proof {
            let a = all.take(i as int);
            let b = all.take(i + 1);
            assert(b =~= a.push(rel@));
            lists::lemma_push_contains(a, rel@);
        }
        i = i + 1;
    }
    assert(all.take(i as int) =~= all);
    set
}

/// Those of the files that stand under one of the directories, or all of them if
/// there are no directories.
pub open spec fn included_files(
    vault: Seq<char>,
    md_files: Seq<Seq<char>>,
    dirs: Seq<Seq<char>>,
) -> Seq<Seq<char>> {
    md_files.filter(|f: Seq<char>| paths::included(vault, f, dirs))
}

/// The files to index: those under one of the directories, which are relative to
/// the vault, or all of them if there are no directories.
pub fn files_to_index(vault: &str, md_files: &Vec<String>, dirs: &Vec<String>) -> (r: Vec<String>)
    ensures
        r.deep_view() == included_files(vault@, md_files.deep_view(), dirs.deep_view()),
{
    let ghost all = md_files.deep_view();
    let ghost keep = |f: Seq<char>| paths::included(vault@, f, dirs.deep_view());
    let mut r: Vec<String> = Vec::new();
    let mut i: usize = 0;
    proof {
        reveal(Seq::filter);
        assert(r.deep_view() =~= all.take(0).filter(keep));
    }
    while i < md_files.len()
        invariant
            i <= md_files@.len(),
            all == md_files.deep_view(),
            keep == (|f: Seq<char>| paths::included(vault@, f, dirs.deep_view())),
            r.deep_view() == all.take(i as int).filter(keep),
        decreases md_files@.len() - i,
    {
        let ghost had = r.deep_view();
        proof {
            reveal(Seq::filter);
            assert(all.take(i + 1).drop_last() =~= all.take(i as int));
            assert(all.take(i + 1).last() == md_files@[i as int]@);
        }
        if paths::is_included(vault, md_files[i].as_str(), dirs) {
            let f = md_files[i].clone();
            r.push(f);
            assert(r.deep_view() =~= had.push(f@));
        }
        i = i + 1;
    }
    assert(all.take(i as int) =~= all);
    r
}

/// The operations that index (or incrementally re-index) a vault.
///
/// `md_files` are the markdown files of the vault, `stored` the notes in the
/// index, and `files` the files to look at. Files whose hash has not changed
/// since they were last indexed are skipped, as is a file with the hash of the
/// last one before it that has the same path.
pub fn index_vault(
    vault: &str,
    md_files: &Vec<String>,
    stored: &Vec<String>,
    files: &Vec<NoteFile>,
) -> (r: Vec<DbOp>)
    ensures
        r.deep_view() == index_ops(
            vault@,
            md_files.deep_view(),
            stored.deep_view(),
            files.deep_view(),
        ),
{
    let name_map = wikilinks::build_name_map(md_files);
    let on_disk = on_disk_set(vault, md_files);
    let ghost disk = relative_paths(vault@, md_files.deep_view());
    let ghost all_stored = stored.deep_view();
    let ghost all = files.deep_view();
    let mut ops: Vec<DbOp> = Vec::new();
    let mut i: usize = 0;
    assert(ops.deep_view() =~= removal_ops(all_stored.take(0), disk));
    while i < stored.len()
        invariant
            i <= stored@.len(),
            all_stored == stored.deep_view(),
            forall|p: Seq<char>| #[trigger] on_disk@.contains_key(p) <==> disk.contains(p),
            ops.deep_view() == removal_ops(all_stored.take(i as int), disk),
        decreases stored@.len() - i,
    {
        proof {
            assert(all_stored.take(i + 1).drop_last() =~= all_stored.take(i as int));
            assert(all_stored.take(i + 1).last() == stored@[i as int]@);
        }
        if !on_disk.contains_key(stored[i].as_str()) {
            let ghost had = ops.deep_view();
            let path = stored[i].clone();
            ops.push(DbOp::DeleteNote { path });
            assert(ops.deep_view() =~= had.push(db::OpModel::DeleteNote { path: path@ }));
        }
        i = i + 1;
    }
    assert(all_stored.take(i as int) =~= all_stored);
    let ghost removed = ops.deep_view();
    let to_reindex = changed_places(files);
    let ghost again = changed_files(all);
    let mut k: usize = 0;
    assert(removed + all_reset_ops(again.take(0)) =~= removed);
    while k < to_reindex.len()
        invariant
            k <= to_reindex@.len(),
            all == files.deep_view(),
            again == picked(all, to_reindex@),
            forall|j: int| 0 <= j < to_reindex@.len() ==> #[trigger] to_reindex@[j] < files@.len(),
            ops.deep_view() == removed + all_reset_ops(again.take(k as int)),
        decreases to_reindex@.len() - k,
    {
        let f = &files[to_reindex[k]];
        proof {
            assert(again.take(k + 1).drop_last() =~= again.take(k as int));
            assert(again.take(k + 1).last() == f.deep_view());
        }
        let sha = sha256(f.content.as_str());
        push_reset(&mut ops, &f.path, f.mtime, sha);
        assert(ops.deep_view() =~= removed + (all_reset_ops(again.take(k as int)) + reset_ops(
            f.path@,
            f.mtime,
            sha@,
        )));
        k = k + 1;
    }
    let ghost cleared = ops.deep_view();
    let ghost names = name_map@;
    let mut n: usize = 0;
    assert(again.take(k as int) =~= again);
    assert(cleared + all_row_ops(vault@, again.take(0), names) =~= cleared);
    while n < to_reindex.len()
        invariant
            n <= to_reindex@.len(),
            all == files.deep_view(),
            names == name_map@,
            again == picked(all, to_reindex@),
            forall|j: int| 0 <= j < to_reindex@.len() ==> #[trigger] to_reindex@[j] < files@.len(),
            ops.deep_view() == cleared + all_row_ops(vault@, again.take(n as int), names),
        decreases to_reindex@.len() - n,
    {
        let f = &files[to_reindex[n]];
        proof {
            assert(again.take(n + 1).drop_last() =~= again.take(n as int));
            assert(again.take(n + 1).last() == f.deep_view());
        }
        let note = parse_note(vault, f.content.as_str(), &name_map);
        push_rows(&mut ops, &f.path, &note);
        assert(ops.deep_view() =~= cleared + (all_row_ops(vault@, again.take(n as int), names)
            + row_ops(f.path@, note.deep_view())));
        n = n + 1;
    }
    assert(again.take(n as int) =~= again);
    ops
}

// ── re-indexing a file ───────────────────────────────────────────────────────

/// A file as it stands on disk.
pub struct FileOnDisk {
    pub mtime: i64,
    pub content: String,
}

/// What re-indexing a file amounts to.
pub struct Reindexed {
    /// Whether the index changes, so that the graph has to be computed anew.
    pub changed: bool,
    pub ops: Vec<DbOp>,
}

/// The operations that bring one note up to date with its file, if they are
/// needed. A file that is gone takes its note with it.
pub open spec fn reindex_ops(
    vault: Seq<char>,
    path: Seq<char>,
    disk: Option<(i64, Seq<char>)>,
    stored_sha256: Option<Seq<char>>,
    names: Map<Seq<char>, Seq<char>>,
) -> Option<Seq<db::OpModel>> {
    match disk {
        None => Some(seq![db::OpModel::DeleteNote { path }]),
        Some((mtime, content)) => if stored_sha256 == Some(content_hash(content)) {
            None
        } else {
            Some(
                reset_ops(path, mtime, content_hash(content)) + row_ops(
                    path,
                    note_content(vault, content, names),
                ),
            )
        },
    }
}

/// What a [`FileOnDisk`] holds.
pub open spec fn on_disk_model(disk: Option<FileOnDisk>) -> Option<(i64, Seq<char>)> {
    match disk {
        Some(d) => Some((d.mtime, d.content@)),
        None => None,
    }
}

/// Indexes a single file. `disk` is the file, `None` if it does not exist;
/// `stored_sha256` is the content hash in the index, if the note is in it.
/// `name_map` is built once for a batch of files.
pub fn reindex_file(
    vault: &str,
    file: &str,
    disk: &Option<FileOnDisk>,
    stored_sha256: &Option<String>,
    name_map: &NameMap,
) -> (r: Reindexed)
    ensures
        match reindex_ops(
            vault@,
            paths::relative_path(vault@, file@),
            on_disk_model(*disk),
            stored_sha256.deep_view(),
            name_map@,
        ) {
            Some(ops) => r.changed && r.ops.deep_view() == ops,
            None => !r.changed && r.ops@.len() == 0,
        },
{
    let path = vault_relative(vault, file);
    let mut ops: Vec<DbOp> = Vec::new();
    match disk {
        None => {
            ops.push(DbOp::DeleteNote { path });
            assert(ops.deep_view() =~= seq![db::OpModel::DeleteNote { path: path@ }]);
            Reindexed { changed: true, ops }
        },
        Some(d) => {
            let sha = sha256(d.content.as_str());
            let unchanged = match stored_sha256 {
                Some(s) => same_text(s.as_str(), sha.as_str()),
                None => false,
            };
            if unchanged {
                return Reindexed { changed: false, ops };
            }
            let note = parse_note(vault, d.content.as_str(), name_map);
            push_reset(&mut ops, &path, d.mtime, sha);
            push_rows(&mut ops, &path, &note);
            assert(ops.deep_view() =~= reset_ops(path@, d.mtime, sha@) + row_ops(
                path@,
                note.deep_view(),
            ));
            Reindexed { changed: true, ops }
        },
    }
}

// ── laws ─────────────────────────────────────────────────────────────────────

/// The number that a hexadecimal digit stands for.
pub open spec fn digit_value(c: char) -> int {
    if '0' <= c <= '9' {
        c as int - '0' as int
    } else {
        c as int - 'a' as int + 10
    }
}

/// The hash of a text is the digest of all of its bytes in UTF-8, two hexadecimal
/// digits in lower case for each byte.
pub proof fn law_content_hash(content: Seq<char>)
    ensures
        ({
            let digest = sha256_digest(vstd::utf8::encode_utf8(content));
            let hash = content_hash(content);
            &&& hash.len() == 2 * digest.len()
            &&& forall|i: int|
                #![trigger digest[i]]
                0 <= i < digest.len() ==> digit_value(hash[2 * i]) * 16 + digit_value(
                    hash[2 * i + 1],
                ) == digest[i]
            &&& forall|i: int|
                0 <= i < hash.len() ==> '0' <= #[trigger] hash[i] <= '9' || 'a' <= hash[i] <= 'f'
        }),
{
    let digest = sha256_digest(vstd::utf8::encode_utf8(content));
    let hash = content_hash(content);
    assert forall|i: int| 0 <= i < hash.len() implies '0' <= #[trigger] hash[i] <= '9' || 'a'
        <= hash[i] <= 'f' by {
        let n = if i % 2 == 0 { digest[i / 2] / 16 } else { digest[i / 2] % 16 };
        assert(n < 16);
        assert(hash[i] == hex_digit(n as u8));
    }
    assert forall|i: int|
        #![trigger digest[i]]
        0 <= i < digest.len() implies digit_value(hash[2 * i]) * 16 + digit_value(hash[2 * i + 1])
        == digest[i] by {
        let d = digest[i];
        assert((2 * i) / 2 == i && (2 * i) % 2 == 0);
        assert((2 * i + 1) / 2 == i && (2 * i + 1) % 2 == 1);
        assert(hash[2 * i] == hex_digit(d / 16));
        assert(hash[2 * i + 1] == hex_digit(d % 16));
        assert(digit_value(hex_digit(d / 16)) == d / 16);
        assert(digit_value(hex_digit(d % 16)) == d % 16);
    }
}

/// What a note contributes comes from all of it: the fields and the tags of its
/// frontmatter, then the inline tags of its body; the chunks of its body; and the
/// notes that its links lead to, those in the frontmatter included.
pub proof fn law_note_content(
    vault: Seq<char>,
    content: Seq<char>,
    names: Map<Seq<char>, Seq<char>>,
)
    ensures
        ({
            let c = note_content(vault, content, names);
            let (fm, body) = frontmatter::parsed(content);
            &&& c.fields == fm.fields
            &&& c.tags == fm.tags + tags::inline_tags(body)
            &&& c.chunks == chunker::chunks(body)
            &&& c.links == linked_notes(vault, wikilinks::targets(content), names)
        }),
{
}

/// A target that leads to a file adds the file's path relative to the vault, behind
/// the others; one that leads nowhere adds nothing.
pub proof fn law_linked_notes(
    vault: Seq<char>,
    targets: Seq<Seq<char>>,
    target: Seq<char>,
    names: Map<Seq<char>, Seq<char>>,
)
    ensures
        linked_notes(vault, Seq::<Seq<char>>::empty(), names).len() == 0,
        linked_notes(vault, targets.push(target), names) == match wikilinks::resolved(
            target,
            names,
        ) {
            Some(file) => linked_notes(vault, targets, names).push(
                paths::relative_path(vault, file),
            ),
            None => linked_notes(vault, targets, names),
        },
{
    assert(targets.push(target).drop_last() =~= targets);
}

/// A chunk is embedded with its heading on a line before its content, if it has one.
pub proof fn law_embed_text(heading: Seq<char>, content: Seq<char>)
    ensures
        heading.len() == 0 ==> embed_text(chunker::ChunkModel { heading, content }) == content,
        heading.len() > 0 ==> embed_text(chunker::ChunkModel { heading, content }) == heading + seq![
            '\n',
        ] + content,
{
    assert(heading.push('\n') =~= heading + seq!['\n']);
}

/// A file is looked at exactly if it is included, and the files keep their order.
pub proof fn law_files_to_index(
    vault: Seq<char>,
    md_files: Seq<Seq<char>>,
    file: Seq<char>,
    dirs: Seq<Seq<char>>,
)
    ensures
        included_files(vault, Seq::<Seq<char>>::empty(), dirs).len() == 0,
        included_files(vault, md_files.push(file), dirs) == if paths::included(vault, file, dirs) {
            included_files(vault, md_files, dirs).push(file)
        } else {
            included_files(vault, md_files, dirs)
        },
{
    reveal(Seq::filter);
    assert(md_files.push(file).drop_last() =~= md_files);
}

/// A file is indexed anew exactly if there is no hash of it, or another one: a file
/// with the hash that the index has is left alone.
pub proof fn law_reindex_only_if_changed(
    vault: Seq<char>,
    path: Seq<char>,
    mtime: i64,
    content: Seq<char>,
    stored_sha256: Option<Seq<char>>,
    names: Map<Seq<char>, Seq<char>>,
)
    ensures
        reindex_ops(vault, path, Some((mtime, content)), stored_sha256, names) is None
            <==> stored_sha256 == Some(content_hash(content)),
        reindex_ops(vault, path, None, stored_sha256, names) is Some,
{
}

} // verus!
