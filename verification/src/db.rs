//! The index: its rows, the operations on it, what each of them does, and the
//! texts and blobs that are written into it.
use vstd::prelude::*;
use vstd::string::StringExecFns;

use crate::text;
use crate::text::{chars_of, words_of};

verus! {

// ── row types ────────────────────────────────────────────────────────────────

/// What the index knows of a note file.
#[derive(Debug, Clone)]
pub struct NoteMeta {
    pub path: String,
    pub mtime: i64,
    pub sha256: String,
}

/// A chunk with its embedding.
#[derive(Debug, Clone)]
pub struct EmbeddedChunk {
    pub id: i64,
    pub note_path: String,
    pub heading: String,
    pub content: String,
    /// Raw little-endian `f32` bytes.
    pub embedding: Vec<u8>,
}

/// A chunk that full-text search has found.
#[derive(Debug, Clone)]
pub struct FtsResult {
    pub chunk_id: i64,
    pub note_path: String,
    pub heading: String,
    pub snippet: String,
    /// Bits of the `f64` rank; smaller is better.
    pub rank: u64,
}

/// Whether a note is the current version of its document or an older one.
#[derive(Debug, Clone, Copy, PartialEq, Eq, Structural)]
pub enum NoteRole {
    Primary,
    Archival,
}

impl NoteRole {
    /// How the role is written in the index.
    pub fn name(self) -> (r: &'static str)
        ensures
            r@ == match self {
                NoteRole::Primary => "primary"@,
                NoteRole::Archival => "archival"@,
            },
    {
        match self {
            NoteRole::Primary => "primary",
            NoteRole::Archival => "archival",
        }
    }
}

/// Where a link between notes comes from.
#[derive(Debug, Clone, Copy, PartialEq, Eq, Structural)]
pub enum EdgeKind {
    /// A `[[wikilink]]` in the text of the source.
    Wikilink,
    /// The source is an older version of the target.
    RevisionOf,
}

/// Bits of the weight of a wikilink: 1.0.
pub const WIKILINK_WEIGHT: u32 = 0x3f80_0000;

// ── operations ───────────────────────────────────────────────────────────────

/// One change to the index.
#[derive(Debug, Clone)]
pub enum DbOp {
    /// Adds a note, or renews what is known of its file; its role stays.
    UpsertNote { path: String, mtime: i64, sha256: String },
    /// Removes a note with all its rows and the links from it.
    DeleteNote { path: String },
    DeleteChunks { path: String },
    DeleteTags { path: String },
    DeleteFrontmatter { path: String },
    /// Removes the links from a note.
    DeleteLinks { path: String },
    /// Sets a frontmatter field, in place of one with the same key.
    InsertFrontmatter { path: String, key: String, value: String },
    /// Adds a tag, unless the note has it.
    InsertTag { path: String, tag: String },
    /// Adds a chunk behind the note's others. `embed_text` is what its embedding
    /// is computed from.
    InsertChunk { path: String, heading: String, content: String, embed_text: String },
    /// Adds a wikilink, unless the two notes are linked already.
    InsertLink { source: String, target: String },
    /// Makes every note primary.
    ResetRoles,
    /// Removes every revision_of link.
    DeleteRevisionLinks,
    SetRole { path: String, role: NoteRole },
    /// Adds a revision_of link, unless the two notes are linked already.
    InsertRevisionLink { source: String, target: String, weight: u32 },
}

/// What a [`DbOp`] holds.
pub enum OpModel {
    UpsertNote { path: Seq<char>, mtime: i64, sha256: Seq<char> },
    DeleteNote { path: Seq<char> },
    DeleteChunks { path: Seq<char> },
    DeleteTags { path: Seq<char> },
    DeleteFrontmatter { path: Seq<char> },
    DeleteLinks { path: Seq<char> },
    InsertFrontmatter { path: Seq<char>, key: Seq<char>, value: Seq<char> },
    InsertTag { path: Seq<char>, tag: Seq<char> },
    InsertChunk { path: Seq<char>, heading: Seq<char>, content: Seq<char>, embed_text: Seq<char> },
    InsertLink { source: Seq<char>, target: Seq<char> },
    ResetRoles,
    DeleteRevisionLinks,
    SetRole { path: Seq<char>, role: NoteRole },
    InsertRevisionLink { source: Seq<char>, target: Seq<char>, weight: u32 },
}

impl DeepView for DbOp {
    type V = OpModel;

    open spec fn deep_view(&self) -> OpModel {
        match self {
            DbOp::UpsertNote { path, mtime, sha256 } => OpModel::UpsertNote {
                path: path@,
                mtime: *mtime,
                sha256: sha256@,
            },
            DbOp::DeleteNote { path } => OpModel::DeleteNote { path: path@ },
            DbOp::DeleteChunks { path } => OpModel::DeleteChunks { path: path@ },
            DbOp::DeleteTags { path } => OpModel::DeleteTags { path: path@ },
            DbOp::DeleteFrontmatter { path } => OpModel::DeleteFrontmatter { path: path@ },
            DbOp::DeleteLinks { path } => OpModel::DeleteLinks { path: path@ },
            DbOp::InsertFrontmatter { path, key, value } => OpModel::InsertFrontmatter {
                path: path@,
                key: key@,
                value: value@,
            },
            DbOp::InsertTag { path, tag } => OpModel::InsertTag { path: path@, tag: tag@ },
            DbOp::InsertChunk { path, heading, content, embed_text } => OpModel::InsertChunk {
                path: path@,
                heading: heading@,
                content: content@,
                embed_text: embed_text@,
            },
            DbOp::InsertLink { source, target } => OpModel::InsertLink {
                source: source@,
                target: target@,
            },
            DbOp::ResetRoles => OpModel::ResetRoles,
            DbOp::DeleteRevisionLinks => OpModel::DeleteRevisionLinks,
            DbOp::SetRole { path, role } => OpModel::SetRole { path: path@, role: *role },
            DbOp::InsertRevisionLink { source, target, weight } => OpModel::InsertRevisionLink {
                source: source@,
                target: target@,
                weight: *weight,
            },
        }
    }
}

// ── what the operations do ───────────────────────────────────────────────────

/// A chunk of a note.
pub struct ChunkRow {
    pub heading: Seq<char>,
    pub content: Seq<char>,
    pub embed_text: Seq<char>,
}

/// A note with its rows.
#[verifier::ext_equal]
pub struct NoteRows {
    pub mtime: i64,
    pub sha256: Seq<char>,
    pub role: NoteRole,
    pub frontmatter: Map<Seq<char>, Seq<char>>,
    pub tags: Set<Seq<char>>,
    pub chunks: Seq<ChunkRow>,
}

/// A link between two notes.
pub struct Edge {
    pub kind: EdgeKind,
    pub weight: u32,
}

/// The contents of the index.
#[verifier::ext_equal]
pub struct IndexModel {
    pub notes: Map<Seq<char>, NoteRows>,
    /// The links, by source and target.
    pub links: Map<(Seq<char>, Seq<char>), Edge>,
}

/// The links but for those from `path`.
pub open spec fn links_not_from(
    links: Map<(Seq<char>, Seq<char>), Edge>,
    path: Seq<char>,
) -> Map<(Seq<char>, Seq<char>), Edge> {
    Map::new(|k: (Seq<char>, Seq<char>)| links.contains_key(k) && k.0 != path, |k| links[k])
}

/// The links but for those between versions.
pub open spec fn wikilinks_of(links: Map<(Seq<char>, Seq<char>), Edge>) -> Map<
    (Seq<char>, Seq<char>),
    Edge,
> {
    Map::new(
        |k: (Seq<char>, Seq<char>)| links.contains_key(k) && links[k].kind == EdgeKind::Wikilink,
        |k| links[k],
    )
}

/// The links with one more, unless its notes are linked already.
pub open spec fn with_link(
    links: Map<(Seq<char>, Seq<char>), Edge>,
    source: Seq<char>,
    target: Seq<char>,
    edge: Edge,
) -> Map<(Seq<char>, Seq<char>), Edge> {
    if links.contains_key((source, target)) {
        links
    } else {
        links.insert((source, target), edge)
    }
}

/// The note rows of a file that was indexed for the first time.
pub open spec fn new_note(mtime: i64, sha256: Seq<char>) -> NoteRows {
    NoteRows {
        mtime,
        sha256,
        role: NoteRole::Primary,
        frontmatter: Map::empty(),
        tags: Set::empty(),
        chunks: seq![],
    }
}

/// The index with the rows of a note, if it is there, put in place of its own.
pub open spec fn with_rows(m: IndexModel, path: Seq<char>, rows: NoteRows) -> IndexModel {
    if m.notes.contains_key(path) {
        IndexModel { notes: m.notes.insert(path, rows), links: m.links }
    } else {
        m
    }
}

/// The index after an operation.
pub open spec fn apply(m: IndexModel, op: OpModel) -> IndexModel {
    match op {
        OpModel::UpsertNote { path, mtime, sha256 } => IndexModel {
            notes: m.notes.insert(
                path,
                if m.notes.contains_key(path) {
                    NoteRows { mtime, sha256, ..m.notes[path] }
                } else {
                    new_note(mtime, sha256)
                },
            ),
            links: m.links,
        },
        OpModel::DeleteNote { path } => IndexModel {
            notes: m.notes.remove(path),
            links: links_not_from(m.links, path),
        },
        OpModel::DeleteChunks { path } => with_rows(
            m,
            path,
            NoteRows { chunks: seq![], ..m.notes[path] },
        ),
        OpModel::DeleteTags { path } => with_rows(
            m,
            path,
            NoteRows { tags: Set::empty(), ..m.notes[path] },
        ),
        OpModel::DeleteFrontmatter { path } => with_rows(
            m,
            path,
            NoteRows { frontmatter: Map::empty(), ..m.notes[path] },
        ),
        OpModel::DeleteLinks { path } => IndexModel {
            notes: m.notes,
            links: links_not_from(m.links, path),
        },
        OpModel::InsertFrontmatter { path, key, value } => with_rows(
            m,
            path,
            NoteRows {
                frontmatter: m.notes[path].frontmatter.insert(key, value),
                ..m.notes[path]
            },
        ),
        OpModel::InsertTag { path, tag } => with_rows(
            m,
            path,
            NoteRows { tags: m.notes[path].tags.insert(tag), ..m.notes[path] },
        ),
        OpModel::InsertChunk { path, heading, content, embed_text } => with_rows(
            m,
            path,
            NoteRows {
                chunks: m.notes[path].chunks.push(ChunkRow { heading, content, embed_text }),
                ..m.notes[path]
            },
        ),
        OpModel::InsertLink { source, target } => IndexModel {
            notes: m.notes,
            links: with_link(
                m.links,
                source,
                target,
                Edge { kind: EdgeKind::Wikilink, weight: WIKILINK_WEIGHT },
            ),
        },
        OpModel::ResetRoles => IndexModel {
            notes: m.notes.map_values(|n: NoteRows| NoteRows { role: NoteRole::Primary, ..n }),
            links: m.links,
        },
        OpModel::DeleteRevisionLinks => IndexModel { notes: m.notes, links: wikilinks_of(m.links) },
        OpModel::SetRole { path, role } => with_rows(m, path, NoteRows { role, ..m.notes[path] }),
        OpModel::InsertRevisionLink { source, target, weight } => IndexModel {
            notes: m.notes,
            links: with_link(
                m.links,
                source,
                target,
                Edge { kind: EdgeKind::RevisionOf, weight },
            ),
        },
    }
}

/// Whether the index takes an operation: rows can only be added to a note that
/// is there.
pub open spec fn accepts(m: IndexModel, op: OpModel) -> bool {
    match op {
        OpModel::InsertFrontmatter { path, .. } => m.notes.contains_key(path),
        OpModel::InsertTag { path, .. } => m.notes.contains_key(path),
        OpModel::InsertChunk { path, .. } => m.notes.contains_key(path),
        _ => true,
    }
}

/// The index after operations, one after the other.
pub open spec fn run_all(m: IndexModel, ops: Seq<OpModel>) -> IndexModel
    decreases ops.len(),
{
    if ops.len() == 0 {
        m
    } else {
        apply(run_all(m, ops.drop_last()), ops.last())
    }
}

/// Whether the index takes all of the operations, one after the other.
pub open spec fn accepts_all(m: IndexModel, ops: Seq<OpModel>) -> bool
    decreases ops.len(),
{
    if ops.len() == 0 {
        true
    } else {
        accepts_all(m, ops.drop_last()) && accepts(run_all(m, ops.drop_last()), ops.last())
    }
}

/// A note in the index, if it is there.
pub open spec fn note_at(m: IndexModel, path: Seq<char>) -> Option<NoteRows> {
    if m.notes.contains_key(path) {
        Some(m.notes[path])
    } else {
        None
    }
}

/// The link between two notes, if there is one.
pub open spec fn edge_at(m: IndexModel, source: Seq<char>, target: Seq<char>) -> Option<
    Edge,
> {
    if m.links.contains_key((source, target)) {
        Some(m.links[(source, target)])
    } else {
        None
    }
}

/// The role of a note in the index; one that is not there will be primary.
pub open spec fn role_at(m: IndexModel, path: Seq<char>) -> NoteRole {
    if m.notes.contains_key(path) {
        m.notes[path].role
    } else {
        NoteRole::Primary
    }
}

/// The content hash of a note in the index, if it is there.
pub open spec fn sha256_at(m: IndexModel, path: Seq<char>) -> Option<Seq<char>> {
    if m.notes.contains_key(path) {
        Some(m.notes[path].sha256)
    } else {
        None
    }
}

/// Operations run in two parts do what they do at once.
pub proof fn lemma_run_add(m: IndexModel, a: Seq<OpModel>, b: Seq<OpModel>)
    ensures
        run_all(m, a + b) == run_all(run_all(m, a), b),
        accepts_all(m, a + b) <==> accepts_all(m, a) && accepts_all(run_all(m, a), b),
    decreases b.len(),
{
    if b.len() == 0 {
        assert(a + b =~= a);
    } else {
        lemma_run_add(m, a, b.drop_last());
        assert((a + b).drop_last() =~= a + b.drop_last());
        assert((a + b).last() == b.last());
    }
}

// ── full-text queries ────────────────────────────────────────────────────────

/// A text with every double quote doubled.
pub open spec fn doubled_quotes(s: Seq<char>) -> Seq<char>
    decreases s.len(),
{
    if s.len() == 0 {
        seq![]
    } else if s.last() == '"' {
        doubled_quotes(s.drop_last()) + seq!['"', '"']
    } else {
        doubled_quotes(s.drop_last()) + seq![s.last()]
    }
}

/// A word as an FTS5 string.
pub open spec fn quoted(s: Seq<char>) -> Seq<char> {
    seq!['"'] + doubled_quotes(s) + seq!['"']
}

/// The FTS5 query for the words of a text, each as a literal. Without words, a
/// query that finds nothing.
pub open spec fn fts_query(q: Seq<char>) -> Seq<char> {
    let tokens = text::words(q).map_values(|w: Seq<char>| quoted(w));
    if tokens.len() == 0 {
        "\"\""@
    } else {
        text::join(tokens, " "@)
    }
}

/// Computes [`quoted`].
fn quote(w: &[char]) -> (r: String)
    ensures
        r@ == quoted(w@),
{
    let mut r = String::new();
    r.push('"');
    let mut i: usize = 0;
    while i < w.len()
        invariant
            i <= w@.len(),
            r@ == seq!['"'] + doubled_quotes(w@.take(i as int)),
        decreases w@.len() - i,
    {
        let ghost before = r@;
        proof {
            assert(w@.take(i + 1).drop_last() =~= w@.take(i as int));
            assert(w@.take(i + 1).last() == w@[i as int]);
        }
        if w[i] == '"' {
            r.push('"');
            r.push('"');
            assert(r@ =~= before + seq!['"', '"']);
        } else {
            r.push(w[i]);
            assert(r@ =~= before + seq![w@[i as int]]);
        }
        i = i + 1;
    }
    assert(w@.take(i as int) =~= w@);
    r.push('"');
    r
}

/// Escapes an arbitrary string for use as an FTS5 MATCH query.
///
/// Each whitespace-separated token is wrapped in double quotes so that FTS5
/// operators (AND, OR, NOT, :, *, parentheses) in user input are treated as
/// literals rather than query syntax.
pub fn sanitize_fts_query(q: &str) -> (r: String)
    ensures
        r@ == fts_query(q@),
{
    let chars = chars_of(q);
    let words = words_of(chars.as_slice());
    let ghost tokens = text::words(q@).map_values(|w: Seq<char>| quoted(w));
    assert(text::rows(words@).len() == words@.len());
    if words.len() == 0 {
        return "\"\"".to_owned();
    }
    let mut r = String::new();
    let mut i: usize = 0;
    while i < words.len()
        invariant
            i <= words@.len(),
            text::rows(words@) == text::words(q@),
            tokens == text::words(q@).map_values(|w: Seq<char>| quoted(w)),
            r@ == text::join(tokens.take(i as int), " "@),
        decreases words@.len() - i,
    {
        let w: &[char] = words[i];
        let ghost before = r@;
        proof {
            assert(w@ == text::rows(words@)[i as int]);
            assert(tokens.take(i + 1).drop_last() =~= tokens.take(i as int));
            assert(tokens.take(i + 1).last() == quoted(w@));
        }
        if i > 0 {
            r.append(" ");
        }
        r.append(quote(w).as_str());
        proof {
            if i == 0 {
                assert(r@ =~= quoted(w@));
            }
        }
        i = i + 1;
    }
    assert(tokens.take(i as int) =~= tokens);
    r
}

// ── blobs ────────────────────────────────────────────────────────────────────

/// Byte `k` of a word, from the low end.
pub open spec fn word_byte(w: u32, k: int) -> u8 {
    if k == 0 {
        (w % 256) as u8
    } else if k == 1 {
        (w / 256 % 256) as u8
    } else if k == 2 {
        (w / 65536 % 256) as u8
    } else {
        (w / 16777216) as u8
    }
}

/// The word made of four bytes, the low end first.
pub open spec fn word_of(a: u8, b: u8, c: u8, d: u8) -> u32 {
    (a + 256 * b + 65536 * c + 16777216 * d) as u32
}

/// The little-endian bytes of words.
pub open spec fn blob_of(v: Seq<u32>) -> Seq<u8> {
    Seq::new(4 * v.len(), |i: int| word_byte(v[i / 4], i % 4))
}

/// The little-endian words of bytes; bytes at the end that make no whole word are
/// left out.
pub open spec fn words_in(b: Seq<u8>) -> Seq<u32> {
    Seq::new(
        b.len() / 4,
        |i: int| word_of(b[4 * i], b[4 * i + 1], b[4 * i + 2], b[4 * i + 3]),
    )
}

/// The blob of an embedding, whose `f32` numbers are given by their bits: four
/// bytes for each, little-endian.
pub fn floats_to_blob(v: &[u32]) -> (r: Vec<u8>)
    ensures
        r@ == blob_of(v@),
{
    let mut r: Vec<u8> = Vec::new();
    let mut i: usize = 0;
    while i < v.len()
        invariant
            i <= v@.len(),
            r@ =~= blob_of(v@).take(4 * i),
        decreases v@.len() - i,
    {
        let w: u32 = v[i];
        r.push((w % 256) as u8);
        r.push((w / 256 % 256) as u8);
        r.push((w / 65536 % 256) as u8);
        r.push((w / 16777216) as u8);
        i = i + 1;
    }
    r
}

/// The embedding in a blob, its `f32` numbers as bits.
pub fn blob_to_floats(b: &[u8]) -> (r: Vec<u32>)
    ensures
        r@ == words_in(b@),
{
    let mut r: Vec<u32> = Vec::new();
    let len: usize = b.len();
    let n: usize = len / 4;
    let mut i: usize = 0;
    while i < n
        invariant
            i <= n,
            len == b@.len(),
            n == len / 4,
            r@ =~= words_in(b@).take(i as int),
        decreases n - i,
    {
        let k: usize = 4 * i;
        r.push(
            b[k] as u32 + 256 * (b[k + 1] as u32) + 65536 * (b[k + 2] as u32) + 16777216 * (b[k
                + 3] as u32),
        );
        i = i + 1;
    }
    r
}

// ── laws ─────────────────────────────────────────────────────────────────────

/// An embedding read back from its blob is the embedding that was written, and
/// the blob holds four bytes for each number.
pub proof fn law_blob_round_trip(v: Seq<u32>)
    ensures
        words_in(blob_of(v)) == v,
        blob_of(v).len() == 4 * v.len(),
{
    let b = blob_of(v);
    assert(b.len() / 4 == v.len());
    assert forall|i: int| 0 <= i < v.len() implies words_in(b)[i] == v[i] by {
        let w = v[i];
        assert((4 * i) / 4 == i && (4 * i) % 4 == 0);
        assert((4 * i + 1) / 4 == i && (4 * i + 1) % 4 == 1);
        assert((4 * i + 2) / 4 == i && (4 * i + 2) % 4 == 2);
        assert((4 * i + 3) / 4 == i && (4 * i + 3) % 4 == 3);
        assert(b[4 * i] == word_byte(w, 0));
        assert(b[4 * i + 1] == word_byte(w, 1));
        assert(b[4 * i + 2] == word_byte(w, 2));
        assert(b[4 * i + 3] == word_byte(w, 3));
    }
    assert(words_in(b) =~= v);
}

proof fn lemma_word_bytes(a: u8, b: u8, c: u8, d: u8)
    ensures
        word_byte(word_of(a, b, c, d), 0) == a,
        word_byte(word_of(a, b, c, d), 1) == b,
        word_byte(word_of(a, b, c, d), 2) == c,
        word_byte(word_of(a, b, c, d), 3) == d,
{
    let w = word_of(a, b, c, d);
    assert(w == a + 256 * b + 65536 * c + 16777216 * d);
    assert(w % 256 == a);
    assert(w / 256 == b + 256 * c + 65536 * d);
    assert(w / 65536 == c + 256 * d);
    assert(w / 16777216 == d);
}

/// A blob of whole words is the blob of the embedding that is read from it.
pub proof fn law_blob_read_back(b: Seq<u8>)
    requires
        b.len() % 4 == 0,
    ensures
        blob_of(words_in(b)) == b,
{
    let v = words_in(b);
    let r = blob_of(v);
    assert(r.len() == b.len());
    assert forall|i: int| 0 <= i < b.len() implies r[i] == b[i] by {
        let k = i / 4;
        let j = i % 4;
        assert(0 <= k < v.len());
        assert(i == 4 * k + j);
        lemma_word_bytes(b[4 * k], b[4 * k + 1], b[4 * k + 2], b[4 * k + 3]);
        assert(v[k] == word_of(b[4 * k], b[4 * k + 1], b[4 * k + 2], b[4 * k + 3]));
        assert(r[i] == word_byte(v[k], j));
        if j == 0 {
        } else if j == 1 {
        } else if j == 2 {
        } else {
            assert(j == 3);
        }
    }
    assert(r =~= b);
}

/// The rest of an FTS5 string, its opening quote read: the characters in it and
/// what follows it. Two double quotes stand for one, a single one ends it.
pub open spec fn fts_string_rest(s: Seq<char>) -> Option<(Seq<char>, Seq<char>)>
    decreases s.len(),
{
    if s.len() == 0 {
        None
    } else if s[0] != '"' {
        match fts_string_rest(s.skip(1)) {
            Some((t, rest)) => Some((seq![s[0]] + t, rest)),
            None => None,
        }
    } else if s.len() > 1 && s[1] == '"' {
        match fts_string_rest(s.skip(2)) {
            Some((t, rest)) => Some((seq!['"'] + t, rest)),
            None => None,
        }
    } else {
        Some((seq![], s.skip(1)))
    }
}

/// The strings that an FTS5 query consists of, if it is nothing but strings with
/// blanks between them.
pub open spec fn fts_strings(s: Seq<char>) -> Option<Seq<Seq<char>>>
    decreases s.len(),
    via fts_strings_decreases
{
    if s.len() == 0 || s[0] != '"' {
        None
    } else {
        match fts_string_rest(s.skip(1)) {
            Some((t, rest)) => if rest.len() == 0 {
                Some(seq![t])
            } else if rest[0] == ' ' {
                match fts_strings(rest.skip(1)) {
                    Some(more) => Some(seq![t] + more),
                    None => None,
                }
            } else {
                None
            },
            None => None,
        }
    }
}

#[via_fn]
proof fn fts_strings_decreases(s: Seq<char>) {
    if s.len() > 0 {
        lemma_fts_string_rest_len(s.skip(1));
    }
}

proof fn lemma_fts_string_rest_len(s: Seq<char>)
    ensures
        fts_string_rest(s) matches Some((t, rest)) ==> rest.len() < s.len(),
    decreases s.len(),
{
    if s.len() > 0 {
        if s[0] != '"' {
            lemma_fts_string_rest_len(s.skip(1));
        } else if s.len() > 1 && s[1] == '"' {
            lemma_fts_string_rest_len(s.skip(2));
        }
    }
}

proof fn lemma_doubled_first(s: Seq<char>)
    requires
        s.len() > 0,
    ensures
        doubled_quotes(s) == (if s[0] == '"' {
            seq!['"', '"']
        } else {
            seq![s[0]]
        }) + doubled_quotes(s.drop_first()),
    decreases s.len(),
{
    let head = if s[0] == '"' {
        seq!['"', '"']
    } else {
        seq![s[0]]
    };
    if s.len() == 1 {
        assert(s.drop_last() =~= Seq::<char>::empty());
        assert(s.drop_first() =~= Seq::<char>::empty());
        assert(doubled_quotes(s) =~= head + doubled_quotes(s.drop_first()));
    } else {
        lemma_doubled_first(s.drop_last());
        assert(s.drop_last().drop_first() =~= s.drop_first().drop_last());
        assert(s.drop_first().last() == s.last());
        assert(doubled_quotes(s) =~= head + doubled_quotes(s.drop_first()));
    }
}

proof fn lemma_quoted_reads_back(w: Seq<char>, rest: Seq<char>)
    requires
        rest.len() == 0 || rest[0] != '"',
    ensures
        fts_string_rest(doubled_quotes(w) + seq!['"'] + rest) == Some((w, rest)),
    decreases w.len(),
{
    let s = doubled_quotes(w) + seq!['"'] + rest;
    if w.len() == 0 {
        assert(s =~= seq!['"'] + rest);
        assert(s.skip(1) =~= rest);
        assert(w =~= seq![]);
        if s.len() > 1 {
            assert(s[1] == rest[0]);
        }
    } else {
        let v = w.drop_first();
        lemma_doubled_first(w);
        lemma_quoted_reads_back(v, rest);
        let tail = doubled_quotes(v) + seq!['"'] + rest;
        assert(w =~= seq![w[0]] + v);
        if w[0] == '"' {
            assert(s =~= seq!['"', '"'] + tail);
            assert(s.skip(2) =~= tail);
        } else {
            assert(s =~= seq![w[0]] + tail);
            assert(s.skip(1) =~= tail);
        }
    }
}

proof fn lemma_query_reads_back(ws: Seq<Seq<char>>)
    requires
        ws.len() > 0,
    ensures
        fts_strings(text::join(ws.map_values(|w: Seq<char>| quoted(w)), seq![' '])) == Some(ws),
    decreases ws.len(),
{
    let f = |w: Seq<char>| quoted(w);
    let tokens = ws.map_values(f);
    let s = text::join(tokens, seq![' ']);
    let w = ws[0];
    if ws.len() == 1 {
        assert(s == quoted(w));
        assert(s.skip(1) =~= doubled_quotes(w) + seq!['"'] + Seq::<char>::empty());
        lemma_quoted_reads_back(w, Seq::<char>::empty());
        assert(ws =~= seq![w]);
    } else {
        let more = ws.drop_first();
        text::lemma_join_first(tokens, seq![' ']);
        assert(tokens.drop_first() =~= more.map_values(f));
        lemma_query_reads_back(more);
        let next = text::join(more.map_values(f), seq![' ']);
        let rest = seq![' '] + next;
        assert(s =~= quoted(w) + rest);
        assert(s.skip(1) =~= doubled_quotes(w) + seq!['"'] + rest);
        lemma_quoted_reads_back(w, rest);
        assert(rest.skip(1) =~= next);
        assert(ws =~= seq![w] + more);
    }
}

/// Whatever is asked for, the query consists of quoted strings alone, and those
/// are the words that were asked for: nothing in them is query syntax.
pub proof fn law_fts_query_is_literal(q: Seq<char>)
    ensures
        text::words(q).len() > 0 ==> fts_strings(fts_query(q)) == Some(text::words(q)),
        text::words(q).len() == 0 ==> fts_strings(fts_query(q)) == Some(
            seq![Seq::<char>::empty()],
        ),
{
    reveal_strlit(" ");
    reveal_strlit("\"\"");
    assert(" "@ =~= seq![' ']);
    if text::words(q).len() > 0 {
        lemma_query_reads_back(text::words(q));
    } else {
        let s = "\"\""@;
        assert(s =~= seq!['"', '"']);
        assert(s.skip(1) =~= seq!['"']);
        assert(s.skip(1).skip(1) =~= Seq::<char>::empty());
    }
}

/// A blob is little-endian: of the four bytes of a number the first is the lowest.
pub proof fn law_blob_bytes(v: Seq<u32>, i: int)
    requires
        0 <= i < v.len(),
    ensures
        blob_of(v).len() == 4 * v.len(),
        blob_of(v)[4 * i] + 256 * blob_of(v)[4 * i + 1] + 65536 * blob_of(v)[4 * i + 2] + 16777216
            * blob_of(v)[4 * i + 3] == v[i],
{
    let b = blob_of(v);
    let w = v[i];
    assert((4 * i) / 4 == i && (4 * i) % 4 == 0);
    assert((4 * i + 1) / 4 == i && (4 * i + 1) % 4 == 1);
    assert((4 * i + 2) / 4 == i && (4 * i + 2) % 4 == 2);
    assert((4 * i + 3) / 4 == i && (4 * i + 3) % 4 == 3);
    assert(b[4 * i] == word_byte(w, 0));
    assert(b[4 * i + 1] == word_byte(w, 1));
    assert(b[4 * i + 2] == word_byte(w, 2));
    assert(b[4 * i + 3] == word_byte(w, 3));
}

} // verus!
