//! Note roles: which notes are the current version of their document, and which
//! are older ones.
use vstd::hash_map::StringHashMap;
use vstd::prelude::*;

use crate::config;
use crate::config::{find_namespace, versioning_for_namespace, LoadedConfigs};
use crate::db;
use crate::db::{DbOp, NoteRole};
use crate::lists;
use crate::text::same_text;

verus! {

/// Asks for the notes that carry both keys in their frontmatter.
#[derive(Debug, Clone)]
pub struct VersionQuery {
    /// The scope that the keys hold for.
    pub namespace: String,
    pub resource_key: String,
    pub revision_key: String,
}

/// What a [`VersionQuery`] holds.
pub struct QueryModel {
    pub namespace: Seq<char>,
    pub resource_key: Seq<char>,
    pub revision_key: Seq<char>,
}

impl DeepView for VersionQuery {
    type V = QueryModel;

    open spec fn deep_view(&self) -> QueryModel {
        QueryModel {
            namespace: self.namespace@,
            resource_key: self.resource_key@,
            revision_key: self.revision_key@,
        }
    }
}

/// A note that carries both keys.
#[derive(Debug, Clone)]
pub struct VersionRow {
    pub path: String,
    /// Which document the note is a version of.
    pub resource_id: String,
    /// Epoch of the version.
    pub revision: i64,
}

/// What a [`VersionRow`] holds.
pub struct RowModel {
    pub path: Seq<char>,
    pub resource_id: Seq<char>,
    pub revision: i64,
}

impl DeepView for VersionRow {
    type V = RowModel;

    open spec fn deep_view(&self) -> RowModel {
        RowModel {
            path: self.path@,
            resource_id: self.resource_id@,
            revision: self.revision,
        }
    }
}

/// The answer to a [`VersionQuery`]: the notes of the whole vault that carry its
/// keys.
#[derive(Debug, Clone)]
pub struct VersionAnswer {
    /// The namespace of the query.
    pub namespace: String,
    pub rows: Vec<VersionRow>,
}

/// What a [`VersionAnswer`] holds.
pub struct AnswerModel {
    pub namespace: Seq<char>,
    pub rows: Seq<RowModel>,
}

impl DeepView for VersionAnswer {
    type V = AnswerModel;

    open spec fn deep_view(&self) -> AnswerModel {
        AnswerModel { namespace: self.namespace@, rows: self.rows.deep_view() }
    }
}

// ── queries ──────────────────────────────────────────────────────────────────

/// The namespaces that notes lie in, each once, in the order in which the notes
/// come.
pub open spec fn namespaces(scopes: Seq<Seq<char>>, notes: Seq<Seq<char>>) -> Seq<Seq<char>>
    decreases notes.len(),
{
    if notes.len() == 0 {
        seq![]
    } else {
        let before = namespaces(scopes, notes.drop_last());
        match config::namespace_of(scopes, notes.last()) {
            Some(ns) => if before.contains(ns) {
                before
            } else {
                before.push(ns)
            },
            None => before,
        }
    }
}

/// The queries for those of the namespaces that have a versioning config.
pub open spec fn queries(
    versioned: Seq<config::ScopedModel>,
    names: Seq<Seq<char>>,
) -> Seq<QueryModel>
    decreases names.len(),
{
    if names.len() == 0 {
        seq![]
    } else {
        let before = queries(versioned, names.drop_last());
        match config::config_of(versioned, names.last()) {
            Some(c) => before.push(
                QueryModel {
                    namespace: names.last(),
                    resource_key: c.versioning.resource_key,
                    revision_key: c.versioning.revision_key,
                },
            ),
            None => before,
        }
    }
}

/// The queries that have to be answered before roles can be computed: one for
/// each namespace with notes in it and a complete versioning config.
pub fn version_queries(all_paths: &Vec<String>, configs: &LoadedConfigs) -> (r: Vec<VersionQuery>)
    ensures
        r.deep_view() == queries(
            configs.versioned.deep_view(),
            namespaces(configs.all_scopes.deep_view(), all_paths.deep_view()),
        ),
{
    let ghost scopes = configs.all_scopes.deep_view();
    let ghost all = all_paths.deep_view();
    let mut names: Vec<&str> = Vec::new();
    let mut seen: StringHashMap<bool> = StringHashMap::new();
    let ghost mut texts: Seq<Seq<char>> = seq![];
    let mut i: usize = 0;
    assert(texts =~= namespaces(scopes, all.take(0)));
    while i < all_paths.len()
        invariant
            i <= all_paths@.len(),
            all == all_paths.deep_view(),
            scopes == configs.all_scopes.deep_view(),
            texts == namespaces(scopes, all.take(i as int)),
            texts =~= names@.map_values(|n: &str| n@),
            forall|k: Seq<char>| #[trigger] seen@.contains_key(k) <==> texts.contains(k),
        decreases all_paths@.len() - i,
    {
        proof {
            assert(all.take(i + 1).drop_last() =~= all.take(i as int));
            assert(all.take(i + 1).last() == all_paths@[i as int]@);
        }
        if let Some(ns) = find_namespace(all_paths[i].as_str(), configs.all_scopes.as_slice()) {
            if !seen.contains_key(ns) {
                seen.insert(ns.to_owned(), true);
                names.push(ns);
                proof {
                    let had = texts;
                    texts = had.push(ns@);
                    lists::lemma_push_contains(had, ns@);
                }
            }
        }
        i = i + 1;
    }
    assert(all.take(i as int) =~= all);
    let mut r: Vec<VersionQuery> = Vec::new();
    let mut j: usize = 0;
    assert(r.deep_view() =~= queries(configs.versioned.deep_view(), texts.take(0)));
    while j < names.len()
        invariant
            j <= names@.len(),
            texts =~= names@.map_values(|n: &str| n@),
            r.deep_view() == queries(configs.versioned.deep_view(), texts.take(j as int)),
        decreases names@.len() - j,
    {
        let ns: &str = names[j];
        proof {
            assert(texts.take(j + 1).drop_last() =~= texts.take(j as int));
            assert(texts.take(j + 1).last() == ns@);
        }
        if let Some(c) = versioning_for_namespace(ns, configs.versioned.as_slice()) {
            let ghost had = r.deep_view();
            let q = VersionQuery {
                namespace: ns.to_owned(),
                resource_key: c.versioning.resource_key.clone(),
                revision_key: c.versioning.revision_key.clone(),
            };
            r.push(q);
            assert(r.deep_view() =~= had.push(q.deep_view()));
        }
        j = j + 1;
    }
    assert(texts.take(j as int) =~= texts);
    r
}

// ── roles ────────────────────────────────────────────────────────────────────

/// The place of the newest version of a document: the row with the highest
/// revision, the first one if there are several.
pub open spec fn head_place(rows: Seq<RowModel>, id: Seq<char>) -> Option<int>
    decreases rows.len(),
{
    if rows.len() == 0 {
        None
    } else {
        let before = head_place(rows.drop_last(), id);
        if rows.last().resource_id != id {
            before
        } else {
            match before {
                Some(h) => if rows.last().revision > rows[h].revision {
                    Some(rows.len() - 1)
                } else {
                    before
                },
                None => Some(rows.len() - 1),
            }
        }
    }
}

/// The place of the newest version of the document that row `i` is a version of.
pub open spec fn head_of(rows: Seq<RowModel>, i: int) -> int {
    head_place(rows, rows[i].resource_id)->0
}

/// The operations for the first `k` rows: every row that is not the newest
/// version of its document becomes archival and gets an edge to the one that is.
pub open spec fn archive_ops(rows: Seq<RowModel>, k: nat, weight: u32) -> Seq<db::OpModel>
    decreases k,
{
    if k == 0 {
        seq![]
    } else {
        let before = archive_ops(rows, (k - 1) as nat, weight);
        let i = k - 1;
        let h = head_of(rows, i);
        if h == i {
            before
        } else {
            before.push(
                db::OpModel::SetRole { path: rows[i].path, role: NoteRole::Archival },
            ).push(
                db::OpModel::InsertRevisionLink {
                    source: rows[i].path,
                    target: rows[h].path,
                    weight,
                },
            )
        }
    }
}

/// Whether the note of a row lies in a namespace.
pub open spec fn lies_in(scopes: Seq<Seq<char>>, namespace: Seq<char>) -> spec_fn(RowModel) -> bool {
    |r: RowModel| config::namespace_of(scopes, r.path) == Some(namespace)
}

/// Those of the rows whose notes lie in the namespace.
pub open spec fn in_scope(scopes: Seq<Seq<char>>, a: AnswerModel) -> Seq<RowModel> {
    a.rows.filter(lies_in(scopes, a.namespace))
}

/// The operations for the rows of one namespace.
pub open spec fn namespace_ops(
    scopes: Seq<Seq<char>>,
    versioned: Seq<config::ScopedModel>,
    a: AnswerModel,
) -> Seq<db::OpModel> {
    let rows = in_scope(scopes, a);
    match config::config_of(versioned, a.namespace) {
        Some(c) => archive_ops(rows, rows.len(), c.versioning.revision_of_weight),
        None => seq![],
    }
}

/// The operations for the rows of several namespaces.
pub open spec fn namespaces_ops(
    scopes: Seq<Seq<char>>,
    versioned: Seq<config::ScopedModel>,
    answers: Seq<AnswerModel>,
) -> Seq<db::OpModel>
    decreases answers.len(),
{
    if answers.len() == 0 {
        seq![]
    } else {
        namespaces_ops(scopes, versioned, answers.drop_last()) + namespace_ops(
            scopes,
            versioned,
            answers.last(),
        )
    }
}

/// The operations that compute roles anew.
pub open spec fn role_ops(
    scopes: Seq<Seq<char>>,
    versioned: Seq<config::ScopedModel>,
    answers: Seq<AnswerModel>,
) -> Seq<db::OpModel> {
    seq![db::OpModel::ResetRoles, db::OpModel::DeleteRevisionLinks] + namespaces_ops(
        scopes,
        versioned,
        answers,
    )
}

proof fn lemma_head_place(rows: Seq<RowModel>, id: Seq<char>)
    ensures
        match head_place(rows, id) {
            Some(h) => 0 <= h < rows.len() && rows[h].resource_id == id && (forall|j: int|
                0 <= j < rows.len() && (#[trigger] rows[j]).resource_id == id ==> rows[j].revision
                    < rows[h].revision || (rows[j].revision == rows[h].revision && h <= j)),
            None => forall|j: int|
                0 <= j < rows.len() ==> (#[trigger] rows[j]).resource_id != id,
        },
    decreases rows.len(),
{
    if rows.len() > 0 {
        let before = rows.drop_last();
        lemma_head_place(before, id);
        assert forall|j: int| 0 <= j < before.len() implies rows[j] == before[j] by {}
    }
}

/// The rows of an answer whose notes lie in its namespace.
fn rows_in_scope(configs: &LoadedConfigs, answer: &VersionAnswer) -> (r: Vec<VersionRow>)
    ensures
        r.deep_view() == in_scope(configs.all_scopes.deep_view(), answer.deep_view()),
{
    let ghost all = answer.rows.deep_view();
    let ghost ns = answer.namespace@;
    let ghost scopes = configs.all_scopes.deep_view();
    let ghost keep = lies_in(scopes, ns);
    let mut r: Vec<VersionRow> = Vec::new();
    let mut i: usize = 0;
    proof {
        reveal(Seq::filter);
        assert(r.deep_view() =~= all.take(0).filter(keep));
    }
    while i < answer.rows.len()
        invariant
            i <= answer.rows@.len(),
            all == answer.rows.deep_view(),
            ns == answer.namespace@,
            scopes == configs.all_scopes.deep_view(),
            keep == lies_in(scopes, ns),
            r.deep_view() == all.take(i as int).filter(keep),
        decreases answer.rows@.len() - i,
    {
        let row = &answer.rows[i];
        let ghost had = r.deep_view();
        proof {
            reveal(Seq::filter);
            assert(all.take(i + 1).drop_last() =~= all.take(i as int));
            assert(all.take(i + 1).last() == row.deep_view());
        }
        let inside = match find_namespace(row.path.as_str(), configs.all_scopes.as_slice()) {
            Some(n) => same_text(n, answer.namespace.as_str()),
            None => false,
        };
        assert(inside == keep(row.deep_view()));
        if inside {
            let copy = VersionRow {
                path: row.path.clone(),
                resource_id: row.resource_id.clone(),
                revision: row.revision,
            };
            r.push(copy);
            assert(r.deep_view() =~= had.push(row.deep_view()));
        }
        i = i + 1;
    }
    assert(all.take(i as int) =~= all);
    r
}

/// Whether a map gives the newest version of a document, by its place among the
/// rows.
spec fn lists_head(heads: Map<Seq<char>, usize>, rows: Seq<RowModel>, id: Seq<char>) -> bool {
    match head_place(rows, id) {
        Some(h) => heads.contains_key(id) && heads[id] == h,
        None => !heads.contains_key(id),
    }
}

/// Whether a map gives the newest version of each document.
spec fn lists_heads(heads: Map<Seq<char>, usize>, rows: Seq<RowModel>) -> bool {
    forall|id: Seq<char>| #[trigger] lists_head(heads, rows, id)
}

/// The newest version of each document, by its place among the rows.
fn heads_of(rows: &Vec<VersionRow>) -> (r: StringHashMap<usize>)
    ensures
        lists_heads(r@, rows.deep_view()),
{
    let ghost all = rows.deep_view();
    let mut heads: StringHashMap<usize> = StringHashMap::new();
    let mut i: usize = 0;
    while i < rows.len()
        invariant
            i <= rows@.len(),
            all == rows.deep_view(),
            lists_heads(heads@, all.take(i as int)),
        decreases rows@.len() - i,
    {
        let row = &rows[i];
        let ghost had = heads@;
        proof {
            assert(all.take(i + 1).drop_last() =~= all.take(i as int));
            assert(all.take(i + 1).last() == row.deep_view());
            lemma_head_place(all.take(i as int), row.resource_id@);
            assert(lists_head(had, all.take(i as int), row.resource_id@));
        }
        let newest = match heads.get(row.resource_id.as_str()) {
            Some(h) => {
                assert(all.take(i as int)[*h as int] == all[*h as int]);
                row.revision > rows[*h].revision
            },
            None => true,
        };
        if newest {
            heads.insert(row.resource_id.clone(), i);
        }
        proof {
            assert forall|id: Seq<char>| #[trigger] lists_head(heads@, all.take(i + 1), id) by {
                assert(lists_head(had, all.take(i as int), id));
                lemma_head_place(all.take(i as int), id);
                if let Some(h) = head_place(all.take(i as int), id) {
                    assert(all.take(i + 1)[h] == all.take(i as int)[h]);
                }
            }
        }
        i = i + 1;
    }
    assert(all.take(i as int) =~= all);
    heads
}

/// Adds [`namespace_ops`] to the operations.
fn push_namespace(ops: &mut Vec<DbOp>, configs: &LoadedConfigs, answer: &VersionAnswer)
    ensures
        final(ops).deep_view() == old(ops).deep_view() + namespace_ops(
            configs.all_scopes.deep_view(),
            configs.versioned.deep_view(),
            answer.deep_view(),
        ),
{
    let ghost start = ops.deep_view();
    let weight: u32 = match versioning_for_namespace(
        answer.namespace.as_str(),
        configs.versioned.as_slice(),
    ) {
        Some(c) => c.versioning.revision_of_weight,
        None => {
            assert(start + Seq::<db::OpModel>::empty() =~= start);
            return ;
        },
    };
    let rows = rows_in_scope(configs, answer);
    let heads = heads_of(&rows);
    let ghost all = rows.deep_view();
    let mut i: usize = 0;
    assert(start + archive_ops(all, 0, weight) =~= start);
    while i < rows.len()
        invariant
            i <= rows@.len(),
            all == rows.deep_view(),
            lists_heads(heads@, all),
            ops.deep_view() == start + archive_ops(all, i as nat, weight),
        decreases rows@.len() - i,
    {
        let row = &rows[i];
        proof {
            lemma_head_place(all, row.resource_id@);
            assert(all[i as int].resource_id == row.resource_id@);
            assert(lists_head(heads@, all, row.resource_id@));
        }
        if let Some(h) = heads.get(row.resource_id.as_str()) {
            let h: usize = *h;
            if h != i {
                let ghost had = ops.deep_view();
                let head = rows[h].path.clone();
                ops.push(DbOp::SetRole { path: row.path.clone(), role: NoteRole::Archival });
                ops.push(
                    DbOp::InsertRevisionLink { source: row.path.clone(), target: head, weight },
                );
                assert(ops.deep_view() =~= start + archive_ops(all, (i + 1) as nat, weight)) by {
                    assert(rows[h as int].path@ == all[h as int].path);
                    assert(ops.deep_view() =~= had.push(
                        db::OpModel::SetRole { path: row.path@, role: NoteRole::Archival },
                    ).push(
                        db::OpModel::InsertRevisionLink {
                            source: row.path@,
                            target: all[h as int].path,
                            weight,
                        },
                    ));
                }
            }
        }
        i = i + 1;
    }
}

/// The operations that compute and persist note roles based on the vault's
/// versioning config, from the answers to its [`version_queries`].
///
/// All notes become primary, and all revision_of edges go. Then, in each
/// namespace that has a complete versioning config, the notes that carry both of
/// its keys are grouped by document; every note but the newest of its group
/// becomes archival, with a revision_of edge to the newest.
pub fn compute(configs: &LoadedConfigs, answers: &Vec<VersionAnswer>) -> (r: Vec<DbOp>)
    ensures
        r.deep_view() == role_ops(
            configs.all_scopes.deep_view(),
            configs.versioned.deep_view(),
            answers.deep_view(),
        ),
{
    let mut ops: Vec<DbOp> = Vec::new();
    ops.push(DbOp::ResetRoles);
    ops.push(DbOp::DeleteRevisionLinks);
    let ghost start = seq![db::OpModel::ResetRoles, db::OpModel::DeleteRevisionLinks];
    let ghost scopes = configs.all_scopes.deep_view();
    let ghost versioned = configs.versioned.deep_view();
    let ghost all = answers.deep_view();
    let mut i: usize = 0;
    assert(ops.deep_view() =~= start + namespaces_ops(scopes, versioned, all.take(0)));
    while i < answers.len()
        invariant
            i <= answers@.len(),
            all == answers.deep_view(),
            scopes == configs.all_scopes.deep_view(),
            versioned == configs.versioned.deep_view(),
            ops.deep_view() == start + namespaces_ops(scopes, versioned, all.take(i as int)),
        decreases answers@.len() - i,
    {
        proof {
            assert(all.take(i + 1).drop_last() =~= all.take(i as int));
            assert(all.take(i + 1).last() == answers@[i as int].deep_view());
        }
        push_namespace(&mut ops, configs, &answers[i]);
        assert(ops.deep_view() =~= start + namespaces_ops(scopes, versioned, all.take(i + 1)));
        i = i + 1;
    }
    assert(all.take(i as int) =~= all);
    ops
}

// ── laws ─────────────────────────────────────────────────────────────────────

/// Whether row `i` is not the newest version of its document.
pub open spec fn outdated(rows: Seq<RowModel>, i: int) -> bool {
    head_of(rows, i) != i
}

/// Whether one of the first `k` rows says that the note is an older version.
pub open spec fn is_older(rows: Seq<RowModel>, k: int, path: Seq<char>) -> bool {
    exists|i: int| 0 <= i < k && #[trigger] outdated(rows, i) && rows[i].path == path
}

/// Whether one of the first `k` rows says that `source` is an older version of
/// `target`.
pub open spec fn is_older_than(
    rows: Seq<RowModel>,
    k: int,
    source: Seq<char>,
    target: Seq<char>,
) -> bool {
    exists|i: int|
        0 <= i < k && #[trigger] outdated(rows, i) && rows[i].path == source && rows[head_of(
            rows,
            i,
        )].path == target
}

/// A note with its role.
pub open spec fn with_role(n: Option<db::NoteRows>, role: NoteRole) -> Option<db::NoteRows> {
    match n {
        Some(n) => Some(db::NoteRows { role, ..n }),
        None => None,
    }
}

/// The edge from an older version to the newest one.
pub open spec fn revision_edge(weight: u32) -> db::Edge {
    db::Edge { kind: db::EdgeKind::RevisionOf, weight }
}

proof fn lemma_archive(m: db::IndexModel, rows: Seq<RowModel>, k: nat, weight: u32)
    requires
        k <= rows.len(),
    ensures
        db::accepts_all(m, archive_ops(rows, k, weight)),
        forall|p: Seq<char>| #[trigger]
            db::note_at(db::run_all(m, archive_ops(rows, k, weight)), p) == if is_older(
                rows,
                k as int,
                p,
            ) {
                with_role(db::note_at(m, p), NoteRole::Archival)
            } else {
                db::note_at(m, p)
            },
        forall|s: Seq<char>, t: Seq<char>| #[trigger]
            db::edge_at(db::run_all(m, archive_ops(rows, k, weight)), s, t) == if db::edge_at(
                m,
                s,
                t,
            ) is None && is_older_than(rows, k as int, s, t) {
                Some(revision_edge(weight))
            } else {
                db::edge_at(m, s, t)
            },
    decreases k,
{
    let ops = archive_ops(rows, k, weight);
    let b = db::run_all(m, ops);
    if k > 0 {
        let i = k - 1;
        let h = head_of(rows, i);
        let before = archive_ops(rows, (k - 1) as nat, weight);
        let a = db::run_all(m, before);
        lemma_archive(m, rows, (k - 1) as nat, weight);
        if h != i {
            let set = db::OpModel::SetRole { path: rows[i].path, role: NoteRole::Archival };
            let link = db::OpModel::InsertRevisionLink {
                source: rows[i].path,
                target: rows[h].path,
                weight,
            };
            assert(ops == before.push(set).push(link));
            assert(ops.drop_last() =~= before.push(set));
            assert(before.push(set).drop_last() =~= before);
            assert(db::run_all(m, before.push(set)) == db::apply(a, set));
            assert(b == db::apply(db::apply(a, set), link));
            assert(db::accepts_all(m, before.push(set)));
            assert(outdated(rows, i));
        }
        assert forall|p: Seq<char>| #[trigger]
            db::note_at(b, p) == if is_older(rows, k as int, p) {
                with_role(db::note_at(m, p), NoteRole::Archival)
            } else {
                db::note_at(m, p)
            } by {
            assert(db::note_at(a, p) == if is_older(rows, k - 1, p) {
                with_role(db::note_at(m, p), NoteRole::Archival)
            } else {
                db::note_at(m, p)
            });
            assert(is_older(rows, k as int, p) <==> is_older(rows, k - 1, p) || (outdated(rows, i)
                && rows[i].path == p));
        }
        assert forall|s: Seq<char>, t: Seq<char>| #[trigger]
            db::edge_at(b, s, t) == if db::edge_at(m, s, t) is None && is_older_than(
                rows,
                k as int,
                s,
                t,
            ) {
                Some(revision_edge(weight))
            } else {
                db::edge_at(m, s, t)
            } by {
            assert(db::edge_at(a, s, t) == if db::edge_at(m, s, t) is None && is_older_than(
                rows,
                k - 1,
                s,
                t,
            ) {
                Some(revision_edge(weight))
            } else {
                db::edge_at(m, s, t)
            });
            assert(is_older_than(rows, k as int, s, t) <==> is_older_than(rows, k - 1, s, t) || (
            outdated(rows, i) && rows[i].path == s && rows[h].path == t));
        }
    }
}

/// Whether the rows of the answers say that the note is an older version.
pub open spec fn superseded(
    scopes: Seq<Seq<char>>,
    versioned: Seq<config::ScopedModel>,
    answers: Seq<AnswerModel>,
    path: Seq<char>,
) -> bool
    decreases answers.len(),
{
    answers.len() > 0 && (superseded(scopes, versioned, answers.drop_last(), path) || ({
        let rows = in_scope(scopes, answers.last());
        config::config_of(versioned, answers.last().namespace) is Some && is_older(
            rows,
            rows.len() as int,
            path,
        )
    }))
}

/// The weight of the revision_of edge that the rows of the answers call for
/// between two notes, if they do; the first answer that does decides.
pub open spec fn revision_weight(
    scopes: Seq<Seq<char>>,
    versioned: Seq<config::ScopedModel>,
    answers: Seq<AnswerModel>,
    source: Seq<char>,
    target: Seq<char>,
) -> Option<u32>
    decreases answers.len(),
{
    if answers.len() == 0 {
        None
    } else {
        let before = revision_weight(scopes, versioned, answers.drop_last(), source, target);
        let rows = in_scope(scopes, answers.last());
        if before is Some {
            before
        } else {
            match config::config_of(versioned, answers.last().namespace) {
                Some(c) => if is_older_than(rows, rows.len() as int, source, target) {
                    Some(c.versioning.revision_of_weight)
                } else {
                    None
                },
                None => None,
            }
        }
    }
}

proof fn lemma_namespaces(
    m: db::IndexModel,
    scopes: Seq<Seq<char>>,
    versioned: Seq<config::ScopedModel>,
    answers: Seq<AnswerModel>,
)
    ensures
        db::accepts_all(m, namespaces_ops(scopes, versioned, answers)),
        forall|p: Seq<char>| #[trigger]
            db::note_at(db::run_all(m, namespaces_ops(scopes, versioned, answers)), p)
                == if superseded(scopes, versioned, answers, p) {
                with_role(db::note_at(m, p), NoteRole::Archival)
            } else {
                db::note_at(m, p)
            },
        forall|s: Seq<char>, t: Seq<char>| #[trigger]
            db::edge_at(db::run_all(m, namespaces_ops(scopes, versioned, answers)), s, t)
                == match revision_weight(scopes, versioned, answers, s, t) {
                Some(w) => if db::edge_at(m, s, t) is None {
                    Some(revision_edge(w))
                } else {
                    db::edge_at(m, s, t)
                },
                None => db::edge_at(m, s, t),
            },
    decreases answers.len(),
{
    if answers.len() > 0 {
        let before = answers.drop_last();
        let last = answers.last();
        let rows = in_scope(scopes, last);
        let o1 = namespaces_ops(scopes, versioned, before);
        let o2 = namespace_ops(scopes, versioned, last);
        let a = db::run_all(m, o1);
        let b = db::run_all(a, o2);
        lemma_namespaces(m, scopes, versioned, before);
        db::lemma_run_add(m, o1, o2);
        if let Some(c) = config::config_of(versioned, last.namespace) {
            lemma_archive(a, rows, rows.len(), c.versioning.revision_of_weight);
        }
        assert forall|p: Seq<char>| #[trigger]
            db::note_at(b, p) == if superseded(scopes, versioned, answers, p) {
                with_role(db::note_at(m, p), NoteRole::Archival)
            } else {
                db::note_at(m, p)
            } by {
            let _ = db::note_at(a, p);
        }
        assert forall|s: Seq<char>, t: Seq<char>| #[trigger]
            db::edge_at(b, s, t) == match revision_weight(scopes, versioned, answers, s, t) {
                Some(w) => if db::edge_at(m, s, t) is None {
                    Some(revision_edge(w))
                } else {
                    db::edge_at(m, s, t)
                },
                None => db::edge_at(m, s, t),
            } by {
            let _ = db::edge_at(a, s, t);
        }
    }
}

/// The wikilink between two notes, if there is one.
pub open spec fn wikilink_at(m: db::IndexModel, source: Seq<char>, target: Seq<char>) -> Option<
    db::Edge,
> {
    match db::edge_at(m, source, target) {
        Some(e) => if e.kind == db::EdgeKind::Wikilink {
            Some(e)
        } else {
            None
        },
        None => None,
    }
}

/// Computing roles anew leaves a note archival exactly if the rows say that it is
/// an older version, whatever it was before, and changes nothing else of a note.
/// Every wikilink stays. Other edges go, but for one from each older version to
/// the newest, where no wikilink stands.
pub proof fn law_roles(
    m: db::IndexModel,
    scopes: Seq<Seq<char>>,
    versioned: Seq<config::ScopedModel>,
    answers: Seq<AnswerModel>,
)
    ensures
        db::accepts_all(m, role_ops(scopes, versioned, answers)),
        forall|p: Seq<char>| #[trigger]
            db::note_at(db::run_all(m, role_ops(scopes, versioned, answers)), p) == with_role(
                db::note_at(m, p),
                if superseded(scopes, versioned, answers, p) {
                    NoteRole::Archival
                } else {
                    NoteRole::Primary
                },
            ),
        forall|s: Seq<char>, t: Seq<char>| #[trigger]
            db::edge_at(db::run_all(m, role_ops(scopes, versioned, answers)), s, t)
                == if wikilink_at(m, s, t) is Some {
                wikilink_at(m, s, t)
            } else {
                match revision_weight(scopes, versioned, answers, s, t) {
                    Some(w) => Some(revision_edge(w)),
                    None => None,
                }
            },
{
    let o1 = seq![db::OpModel::ResetRoles, db::OpModel::DeleteRevisionLinks];
    let o2 = namespaces_ops(scopes, versioned, answers);
    let a = db::apply(db::apply(m, o1[0]), o1[1]);
    assert(o1.drop_last() =~= seq![db::OpModel::ResetRoles]);
    assert(o1.drop_last().drop_last() =~= seq![]);
    assert(db::run_all(m, o1.drop_last().drop_last()) == m);
    assert(db::accepts_all(m, o1.drop_last().drop_last()));
    assert(db::run_all(m, o1.drop_last()) == db::apply(m, o1[0]));
    assert(db::accepts_all(m, o1.drop_last()));
    assert(db::run_all(m, o1) == a);
    assert(db::accepts_all(m, o1));
    db::lemma_run_add(m, o1, o2);
    lemma_namespaces(a, scopes, versioned, answers);
    assert forall|p: Seq<char>| #[trigger]
        db::note_at(db::run_all(a, o2), p) == with_role(
            db::note_at(m, p),
            if superseded(scopes, versioned, answers, p) {
                NoteRole::Archival
            } else {
                NoteRole::Primary
            },
        ) by {
        assert(db::note_at(a, p) == with_role(db::note_at(m, p), NoteRole::Primary));
    }
    assert forall|s: Seq<char>, t: Seq<char>| #[trigger]
        db::edge_at(db::run_all(a, o2), s, t) == if wikilink_at(m, s, t) is Some {
            wikilink_at(m, s, t)
        } else {
            match revision_weight(scopes, versioned, answers, s, t) {
                Some(w) => Some(revision_edge(w)),
                None => None,
            }
        } by {
        assert(db::edge_at(a, s, t) == wikilink_at(m, s, t));
    }
}

/// Computing roles a second time, with the same answers, changes nothing.
pub proof fn law_roles_settle(
    m: db::IndexModel,
    scopes: Seq<Seq<char>>,
    versioned: Seq<config::ScopedModel>,
    answers: Seq<AnswerModel>,
)
    ensures
        ({
            let ops = role_ops(scopes, versioned, answers);
            let once = db::run_all(m, ops);
            db::run_all(once, ops) == once
        }),
{
    let ops = role_ops(scopes, versioned, answers);
    let a = db::run_all(m, ops);
    let b = db::run_all(a, ops);
    law_roles(m, scopes, versioned, answers);
    law_roles(a, scopes, versioned, answers);
    assert forall|p: Seq<char>|
        #![trigger b.notes.dom().contains(p)]
        #![trigger b.notes[p]]
        b.notes.dom().contains(p) == a.notes.dom().contains(p) && (b.notes.dom().contains(p)
            ==> b.notes[p] == a.notes[p]) by {
        assert(db::note_at(b, p) == db::note_at(a, p));
    }
    assert(b.notes.dom() =~= a.notes.dom());
    assert(b.notes =~= a.notes);
    assert forall|k: (Seq<char>, Seq<char>)|
        #![trigger b.links.dom().contains(k)]
        #![trigger b.links[k]]
        b.links.dom().contains(k) == a.links.dom().contains(k) && (b.links.dom().contains(k)
            ==> b.links[k] == a.links[k]) by {
        let s = k.0;
        let t = k.1;
        assert(k == (s, t));
        assert(wikilink_at(a, s, t) == wikilink_at(m, s, t));
        assert(db::edge_at(b, s, t) == db::edge_at(a, s, t));
    }
    assert(b.links.dom() =~= a.links.dom());
    assert(b.links =~= a.links);
}

/// Of the versions of a document exactly one is the newest: it has the highest
/// revision, and of those with the same one it comes first. The others are
/// outdated, and their edges lead to it.
pub proof fn law_one_head(rows: Seq<RowModel>, i: int)
    requires
        0 <= i < rows.len(),
    ensures
        ({
            let h = head_of(rows, i);
            0 <= h < rows.len() && rows[h].resource_id == rows[i].resource_id && !outdated(
                rows,
                h,
            ) && (forall|j: int|
                0 <= j < rows.len() && (#[trigger] rows[j]).resource_id == rows[i].resource_id
                    ==> head_of(rows, j) == h && rows[j].revision <= rows[h].revision && (
                rows[j].revision == rows[h].revision ==> h <= j))
        }),
{
    lemma_head_place(rows, rows[i].resource_id);
}

/// A note that is the only version of its document stays primary.
pub proof fn law_single_version_is_newest(rows: Seq<RowModel>, i: int)
    requires
        0 <= i < rows.len(),
        forall|j: int|
            0 <= j < rows.len() && j != i ==> (#[trigger] rows[j]).resource_id
                != rows[i].resource_id,
    ensures
        !outdated(rows, i),
{
    lemma_head_place(rows, rows[i].resource_id);
}

/// A note outside all namespaces, or in one that is not asked about, is never
/// superseded.
pub proof fn law_unversioned_note_stays_primary(
    scopes: Seq<Seq<char>>,
    versioned: Seq<config::ScopedModel>,
    answers: Seq<AnswerModel>,
    path: Seq<char>,
)
    requires
        forall|k: int|
            0 <= k < answers.len() ==> config::namespace_of(scopes, path) != Some(
                (#[trigger] answers[k]).namespace,
            ),
    ensures
        !superseded(scopes, versioned, answers, path),
    decreases answers.len(),
{
    if answers.len() > 0 {
        let before = answers.drop_last();
        let last = answers.last();
        assert forall|k: int| 0 <= k < before.len() implies config::namespace_of(scopes, path)
            != Some((#[trigger] before[k]).namespace) by {
            assert(before[k] == answers[k]);
        }
        law_unversioned_note_stays_primary(scopes, versioned, before, path);
        let rows = in_scope(scopes, last);
        let keep = lies_in(scopes, last.namespace);
        assert(answers[answers.len() - 1] == last);
        if is_older(rows, rows.len() as int, path) {
            let i = choose|i: int|
                0 <= i < rows.len() && #[trigger] outdated(rows, i) && rows[i].path == path;
            last.rows.lemma_filter_pred(keep, i);
            assert(false);
        }
    }
}

proof fn lemma_namespaces_of(scopes: Seq<Seq<char>>, notes: Seq<Seq<char>>)
    ensures
        namespaces(scopes, notes).no_duplicates(),
        forall|k: int|
            0 <= k < notes.len() ==> (config::namespace_of(scopes, #[trigger] notes[k]) is Some
                ==> namespaces(scopes, notes).contains(
                config::namespace_of(scopes, notes[k])->0,
            )),
    decreases notes.len(),
{
    if notes.len() > 0 {
        let before = notes.drop_last();
        lemma_namespaces_of(scopes, before);
        let a = namespaces(scopes, before);
        let b = namespaces(scopes, notes);
        assert forall|k: int| 0 <= k < notes.len() implies (config::namespace_of(
            scopes,
            #[trigger] notes[k],
        ) is Some ==> b.contains(config::namespace_of(scopes, notes[k])->0)) by {
            if config::namespace_of(scopes, notes[k]) is Some {
                let ns = config::namespace_of(scopes, notes[k])->0;
                if k < before.len() {
                    assert(before[k] == notes[k]);
                }
                if b != a {
                    lists::lemma_push_contains(a, b.last());
                    assert(a.push(b.last()) =~= b);
                }
            }
        }
    }
}

/// The query for a namespace with a config.
pub open spec fn query_for(c: config::ScopedModel, namespace: Seq<char>) -> QueryModel {
    QueryModel {
        namespace,
        resource_key: c.versioning.resource_key,
        revision_key: c.versioning.revision_key,
    }
}

proof fn lemma_queries(versioned: Seq<config::ScopedModel>, names: Seq<Seq<char>>)
    requires
        names.no_duplicates(),
    ensures
        ({
            let qs = queries(versioned, names);
            &&& forall|i: int, j: int|
                0 <= i < j < qs.len() ==> (#[trigger] qs[i]).namespace != (
                #[trigger] qs[j]).namespace
            &&& forall|i: int|
                0 <= i < qs.len() ==> names.contains((#[trigger] qs[i]).namespace)
            &&& forall|k: int|
                0 <= k < names.len() ==> (config::config_of(versioned, #[trigger] names[k]) is Some
                    ==> qs.contains(
                    query_for(config::config_of(versioned, names[k])->0, names[k]),
                ))
        }),
    decreases names.len(),
{
    if names.len() > 0 {
        let before = names.drop_last();
        let last = names.last();
        lemma_queries(versioned, before);
        let a = queries(versioned, before);
        let qs = queries(versioned, names);
        lists::lemma_last_contains(names);
        assert forall|i: int| 0 <= i < qs.len() implies names.contains(
            (#[trigger] qs[i]).namespace,
        ) by {
            if i < a.len() {
                assert(a[i] == qs[i]);
                assert(before.contains(a[i].namespace));
            }
        }
        assert forall|i: int, j: int| 0 <= i < j < qs.len() implies (#[trigger] qs[i]).namespace
            != (#[trigger] qs[j]).namespace by {
            assert(a[i] == qs[i]);
            if j == a.len() {
                let k = choose|k: int| 0 <= k < before.len() && before[k] == a[i].namespace;
                assert(names[k] != names[names.len() - 1]);
            }
        }
        assert forall|k: int| 0 <= k < names.len() implies (config::config_of(
            versioned,
            #[trigger] names[k],
        ) is Some ==> qs.contains(
            query_for(config::config_of(versioned, names[k])->0, names[k]),
        )) by {
            if config::config_of(versioned, names[k]) is Some {
                let q = query_for(config::config_of(versioned, names[k])->0, names[k]);
                if k < before.len() {
                    assert(before[k] == names[k]);
                    assert(a.contains(q));
                    let j = choose|j: int| 0 <= j < a.len() && a[j] == q;
                    assert(qs[j] == q);
                } else {
                    assert(qs[a.len() as int] == q);
                }
            }
        }
    }
}

/// There is a query for the namespace of every note that has a versioning config,
/// with the keys of that config; and no namespace is asked about twice.
pub proof fn law_queries_cover_notes(
    scopes: Seq<Seq<char>>,
    versioned: Seq<config::ScopedModel>,
    notes: Seq<Seq<char>>,
)
    ensures
        ({
            let qs = queries(versioned, namespaces(scopes, notes));
            &&& forall|i: int, j: int|
                0 <= i < j < qs.len() ==> (#[trigger] qs[i]).namespace != (
                #[trigger] qs[j]).namespace
            &&& forall|k: int|
                0 <= k < notes.len() ==> (match config::namespace_of(scopes, #[trigger] notes[k]) {
                    Some(ns) => match config::config_of(versioned, ns) {
                        Some(c) => qs.contains(query_for(c, ns)),
                        None => true,
                    },
                    None => true,
                })
        }),
{
    let names = namespaces(scopes, notes);
    let qs = queries(versioned, names);
    lemma_namespaces_of(scopes, notes);
    lemma_queries(versioned, names);
    assert forall|k: int| 0 <= k < notes.len() implies (match config::namespace_of(
        scopes,
        #[trigger] notes[k],
    ) {
        Some(ns) => match config::config_of(versioned, ns) {
            Some(c) => qs.contains(query_for(c, ns)),
            None => true,
        },
        None => true,
    }) by {
        if let Some(ns) = config::namespace_of(scopes, notes[k]) {
            assert(names.contains(ns));
            let j = choose|j: int| 0 <= j < names.len() && names[j] == ns;
            assert(names[j] == ns);
        }
    }
}

/// Every query is for the namespace of a note, with the keys of the config that holds
/// there.
pub proof fn law_queries_are_needed(
    scopes: Seq<Seq<char>>,
    versioned: Seq<config::ScopedModel>,
    notes: Seq<Seq<char>>,
    i: int,
)
    requires
        0 <= i < queries(versioned, namespaces(scopes, notes)).len(),
    ensures
        ({
            let q = queries(versioned, namespaces(scopes, notes))[i];
            &&& exists|k: int|
                0 <= k < notes.len() && config::namespace_of(scopes, #[trigger] notes[k]) == Some(
                    q.namespace,
                )
            &&& match config::config_of(versioned, q.namespace) {
                Some(c) => q.resource_key == c.versioning.resource_key && q.revision_key
                    == c.versioning.revision_key,
                None => false,
            }
        }),
{
    let names = namespaces(scopes, notes);
    let q = queries(versioned, names)[i];
    lemma_query(versioned, names, i);
    lemma_namespace_of_note(scopes, notes, q.namespace);
}

proof fn lemma_query(versioned: Seq<config::ScopedModel>, names: Seq<Seq<char>>, i: int)
    requires
        0 <= i < queries(versioned, names).len(),
    ensures
        ({
            let q = queries(versioned, names)[i];
            names.contains(q.namespace) && match config::config_of(versioned, q.namespace) {
                Some(c) => q.resource_key == c.versioning.resource_key && q.revision_key
                    == c.versioning.revision_key,
                None => false,
            }
        }),
    decreases names.len(),
{
    if names.len() > 0 {
        lists::lemma_last_contains(names);
        if i < queries(versioned, names.drop_last()).len() {
            lemma_query(versioned, names.drop_last(), i);
        }
    }
}

proof fn lemma_namespace_of_note(scopes: Seq<Seq<char>>, notes: Seq<Seq<char>>, ns: Seq<char>)
    requires
        namespaces(scopes, notes).contains(ns),
    ensures
        exists|k: int|
            0 <= k < notes.len() && config::namespace_of(scopes, #[trigger] notes[k]) == Some(ns),
    decreases notes.len(),
{
    if notes.len() > 0 {
        let before = namespaces(scopes, notes.drop_last());
        if config::namespace_of(scopes, notes.last()) == Some(ns) {
            assert(config::namespace_of(scopes, notes[notes.len() - 1]) == Some(ns));
        } else {
            if let Some(x) = config::namespace_of(scopes, notes.last()) {
                lists::lemma_push_contains(before, x);
            }
            lemma_namespace_of_note(scopes, notes.drop_last(), ns);
            let k = choose|k: int|
                0 <= k < notes.drop_last().len() && config::namespace_of(
                    scopes,
                    #[trigger] notes.drop_last()[k],
                ) == Some(ns);
            assert(notes[k] == notes.drop_last()[k]);
        }
    }
}

} // verus!
