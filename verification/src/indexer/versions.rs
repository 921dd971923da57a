//! What note roles amount to: which notes are versions of the same document, by
//! their frontmatter in the index, and which of them is the current one.
use vstd::prelude::*;

use crate::config;
use crate::db;
use crate::db::NoteRole;
use crate::indexer::roles;
use crate::indexer::roles::{AnswerModel, RowModel};

verus! {

/// A note as a version of a document.
pub struct Version {
    /// The namespace that the note lies in.
    pub namespace: Seq<char>,
    /// The document, by the value of the resource key.
    pub resource_id: Seq<char>,
    /// The value of the revision key.
    pub revision: Seq<char>,
    /// The weight of an edge to the newest version.
    pub weight: u32,
}

/// Which version of which document a note is: it lies in a namespace with a
/// versioning config and carries both keys of it.
pub open spec fn version_at(
    m: db::IndexModel,
    scopes: Seq<Seq<char>>,
    versioned: Seq<config::ScopedModel>,
    path: Seq<char>,
) -> Option<Version> {
    match config::namespace_of(scopes, path) {
        Some(namespace) => match config::config_of(versioned, namespace) {
            Some(c) => if carries(m, c.versioning, path) {
                Some(
                    Version {
                        namespace,
                        resource_id: m.notes[path].frontmatter[c.versioning.resource_key],
                        revision: m.notes[path].frontmatter[c.versioning.revision_key],
                        weight: c.versioning.revision_of_weight,
                    },
                )
            } else {
                None
            },
            None => None,
        },
        None => None,
    }
}

/// Whether a note is in the index and carries both keys.
pub open spec fn carries(
    m: db::IndexModel,
    v: config::VersioningModel,
    path: Seq<char>,
) -> bool {
    &&& m.notes.contains_key(path)
    &&& m.notes[path].frontmatter.contains_key(v.resource_key)
    &&& m.notes[path].frontmatter.contains_key(v.revision_key)
}

/// Whether two notes are versions of the same document, in the same namespace.
pub open spec fn same_document(
    m: db::IndexModel,
    scopes: Seq<Seq<char>>,
    versioned: Seq<config::ScopedModel>,
    p: Seq<char>,
    q: Seq<char>,
) -> bool {
    match (version_at(m, scopes, versioned, p), version_at(m, scopes, versioned, q)) {
        (Some(a), Some(b)) => a.namespace == b.namespace && a.resource_id == b.resource_id,
        _ => false,
    }
}

/// Whether a row says what the index has of its note.
pub open spec fn row_of_index(
    m: db::IndexModel,
    v: config::VersioningModel,
    number: spec_fn(Seq<char>) -> i64,
    r: RowModel,
) -> bool {
    &&& carries(m, v, r.path)
    &&& r.resource_id == m.notes[r.path].frontmatter[v.resource_key]
    &&& r.revision == number(m.notes[r.path].frontmatter[v.revision_key])
}

/// Whether no two rows are of the same note.
pub open spec fn distinct_rows(rows: Seq<RowModel>) -> bool {
    forall|i: int, j: int|
        0 <= i < j < rows.len() ==> (#[trigger] rows[i]).path != (#[trigger] rows[j]).path
}

/// Whether one of the rows is of the note.
pub open spec fn has_row(rows: Seq<RowModel>, path: Seq<char>) -> bool {
    exists|i: int| 0 <= i < rows.len() && (#[trigger] rows[i]).path == path
}

/// Whether rows are the notes of the index that carry both keys, each once.
pub open spec fn rows_of_index(
    m: db::IndexModel,
    v: config::VersioningModel,
    number: spec_fn(Seq<char>) -> i64,
    rows: Seq<RowModel>,
) -> bool {
    &&& distinct_rows(rows)
    &&& forall|i: int| 0 <= i < rows.len() ==> row_of_index(m, v, number, #[trigger] rows[i])
    &&& forall|p: Seq<char>| #[trigger] carries(m, v, p) ==> has_row(rows, p)
}

/// Whether an answer has the rows that the index has for the config of its
/// namespace.
pub open spec fn answer_of_index(
    m: db::IndexModel,
    versioned: Seq<config::ScopedModel>,
    number: spec_fn(Seq<char>) -> i64,
    a: AnswerModel,
) -> bool {
    match config::config_of(versioned, a.namespace) {
        Some(c) => rows_of_index(m, c.versioning, number, a.rows),
        None => true,
    }
}

/// Whether one of the answers is for a namespace.
pub open spec fn is_answered(answers: Seq<AnswerModel>, namespace: Seq<char>) -> bool {
    exists|k: int| 0 <= k < answers.len() && (#[trigger] answers[k]).namespace == namespace
}

/// Whether no two answers are for the same namespace.
pub open spec fn distinct_answers(answers: Seq<AnswerModel>) -> bool {
    forall|i: int, j: int|
        0 <= i < j < answers.len() ==> (#[trigger] answers[i]).namespace != (
        #[trigger] answers[j]).namespace
}

/// Whether the answers are what the index has: one for each namespace that a
/// version of a document lies in, with the notes of the index that carry the keys.
/// `number` is the number that the value of a revision key is read as.
pub open spec fn answers_of_index(
    m: db::IndexModel,
    scopes: Seq<Seq<char>>,
    versioned: Seq<config::ScopedModel>,
    number: spec_fn(Seq<char>) -> i64,
    answers: Seq<AnswerModel>,
) -> bool {
    &&& distinct_answers(answers)
    &&& forall|k: int|
        0 <= k < answers.len() ==> answer_of_index(m, versioned, number, #[trigger] answers[k])
    &&& forall|p: Seq<char>|
        match #[trigger] version_at(m, scopes, versioned, p) {
            Some(v) => is_answered(answers, v.namespace),
            None => true,
        }
}

proof fn lemma_filter_distinct(rows: Seq<RowModel>, keep: spec_fn(RowModel) -> bool)
    requires
        distinct_rows(rows),
    ensures
        distinct_rows(rows.filter(keep)),
    decreases rows.len(),
{
    reveal(Seq::filter);
    if rows.len() > 0 {
        let before = rows.drop_last();
        let had = before.filter(keep);
        let all = rows.filter(keep);
        assert(distinct_rows(before)) by {
            assert forall|i: int, j: int| 0 <= i < j < before.len() implies (
            #[trigger] before[i]).path != (#[trigger] before[j]).path by {
                assert(before[i] == rows[i] && before[j] == rows[j]);
            }
        }
        lemma_filter_distinct(before, keep);
        assert forall|i: int, j: int| 0 <= i < j < all.len() implies (#[trigger] all[i]).path != (
        #[trigger] all[j]).path by {
            assert(all[i] == had[i]);
            if j < had.len() {
                assert(all[j] == had[j]);
            } else {
                assert(had.contains(had[i]));
                before.lemma_filter_contains_rev(keep, had[i]);
                let k = choose|k: int| 0 <= k < before.len() && before[k] == had[i];
                assert(rows[k].path != rows[rows.len() - 1].path);
            }
        }
    }
}

proof fn lemma_elsewhere(scopes: Seq<Seq<char>>, a: AnswerModel, path: Seq<char>, target: Seq<char>)
    requires
        config::namespace_of(scopes, path) != Some(a.namespace),
    ensures
        ({
            let rows = roles::in_scope(scopes, a);
            !roles::is_older(rows, rows.len() as int, path) && !roles::is_older_than(
                rows,
                rows.len() as int,
                path,
                target,
            )
        }),
{
    let rows = roles::in_scope(scopes, a);
    let keep = roles::lies_in(scopes, a.namespace);
    assert forall|i: int| 0 <= i < rows.len() implies (#[trigger] rows[i]).path != path by {
        a.rows.lemma_filter_pred(keep, i);
    }
}

proof fn lemma_no_answer(
    scopes: Seq<Seq<char>>,
    versioned: Seq<config::ScopedModel>,
    answers: Seq<AnswerModel>,
    path: Seq<char>,
    target: Seq<char>,
)
    requires
        forall|k: int|
            0 <= k < answers.len() ==> config::namespace_of(scopes, path) != Some(
                (#[trigger] answers[k]).namespace,
            ),
    ensures
        !roles::superseded(scopes, versioned, answers, path),
        roles::revision_weight(scopes, versioned, answers, path, target) is None,
    decreases answers.len(),
{
    if answers.len() > 0 {
        let before = answers.drop_last();
        assert forall|k: int| 0 <= k < before.len() implies config::namespace_of(scopes, path)
            != Some((#[trigger] before[k]).namespace) by {
            assert(before[k] == answers[k]);
        }
        lemma_no_answer(scopes, versioned, before, path, target);
        assert(answers[answers.len() - 1] == answers.last());
        lemma_elsewhere(scopes, answers.last(), path, target);
    }
}

/// The answer for the namespace of a note decides about the note.
proof fn lemma_one_answer(
    scopes: Seq<Seq<char>>,
    versioned: Seq<config::ScopedModel>,
    answers: Seq<AnswerModel>,
    k: int,
    path: Seq<char>,
    target: Seq<char>,
)
    requires
        distinct_answers(answers),
        0 <= k < answers.len(),
        config::namespace_of(scopes, path) == Some(answers[k].namespace),
    ensures
        ({
            let rows = roles::in_scope(scopes, answers[k]);
            match config::config_of(versioned, answers[k].namespace) {
                Some(c) => {
                    &&& roles::superseded(scopes, versioned, answers, path) <==> roles::is_older(
                        rows,
                        rows.len() as int,
                        path,
                    )
                    &&& roles::revision_weight(scopes, versioned, answers, path, target)
                        == if roles::is_older_than(rows, rows.len() as int, path, target) {
                        Some(c.versioning.revision_of_weight)
                    } else {
                        None
                    }
                },
                None => !roles::superseded(scopes, versioned, answers, path)
                    && roles::revision_weight(scopes, versioned, answers, path, target) is None,
            }
        }),
    decreases answers.len(),
{
    let before = answers.drop_last();
    let last = answers.last();
    assert(answers[answers.len() - 1] == last);
    assert(distinct_answers(before)) by {
        assert forall|i: int, j: int| 0 <= i < j < before.len() implies (
        #[trigger] before[i]).namespace != (#[trigger] before[j]).namespace by {
            assert(before[i] == answers[i] && before[j] == answers[j]);
        }
    }
    if k < before.len() {
        assert(before[k] == answers[k]);
        lemma_one_answer(scopes, versioned, before, k, path, target);
        assert(answers[k].namespace != answers[answers.len() - 1].namespace);
        lemma_elsewhere(scopes, last, path, target);
    } else {
        assert forall|i: int| 0 <= i < before.len() implies config::namespace_of(scopes, path)
            != Some((#[trigger] before[i]).namespace) by {
            assert(before[i] == answers[i]);
            assert(answers[i].namespace != answers[k].namespace);
        }
        lemma_no_answer(scopes, versioned, before, path, target);
    }
}

/// What holds of a document once roles have been computed, where `head` is its
/// current version:
/// - `head` has the greatest revision, and is primary;
/// - every other version is archival;
/// - the edges from a version are its wikilinks, and one to `head` from every
///   other version that has no wikilink to it.
pub open spec fn is_current(
    m: db::IndexModel,
    scopes: Seq<Seq<char>>,
    versioned: Seq<config::ScopedModel>,
    number: spec_fn(Seq<char>) -> i64,
    after: db::IndexModel,
    p: Seq<char>,
    head: Seq<char>,
) -> bool {
    &&& same_document(m, scopes, versioned, p, head)
    &&& forall|q: Seq<char>| #[trigger]
        same_document(m, scopes, versioned, p, q) ==> version_settled(
            m,
            scopes,
            versioned,
            number,
            after,
            q,
            head,
        )
}

/// What [`is_current`] says of one version.
pub open spec fn version_settled(
    m: db::IndexModel,
    scopes: Seq<Seq<char>>,
    versioned: Seq<config::ScopedModel>,
    number: spec_fn(Seq<char>) -> i64,
    after: db::IndexModel,
    q: Seq<char>,
    head: Seq<char>,
) -> bool {
    let v = version_at(m, scopes, versioned, q)->0;
    let h = version_at(m, scopes, versioned, head)->0;
    &&& number(v.revision) <= number(h.revision)
    &&& db::note_at(after, q) == roles::with_role(
        db::note_at(m, q),
        if q == head {
            NoteRole::Primary
        } else {
            NoteRole::Archival
        },
    )
    &&& forall|t: Seq<char>| #[trigger]
        db::edge_at(after, q, t) == if roles::wikilink_at(m, q, t) is Some {
            roles::wikilink_at(m, q, t)
        } else if q != head && t == head {
            Some(roles::revision_edge(v.weight))
        } else {
            None
        }
}

/// Once roles have been computed from what the index has, every document has
/// exactly one current version: the newest of the notes that are in the same
/// namespace and carry the same resource id. It is primary; the others are
/// archival, and lead to it.
pub proof fn law_one_current_version(
    m: db::IndexModel,
    scopes: Seq<Seq<char>>,
    versioned: Seq<config::ScopedModel>,
    number: spec_fn(Seq<char>) -> i64,
    answers: Seq<AnswerModel>,
    p: Seq<char>,
)
    requires
        answers_of_index(m, scopes, versioned, number, answers),
        version_at(m, scopes, versioned, p) is Some,
    ensures
        exists|head: Seq<char>| #[trigger]
            is_current(
                m,
                scopes,
                versioned,
                number,
                db::run_all(m, roles::role_ops(scopes, versioned, answers)),
                p,
                head,
            ),
{
    let after = db::run_all(m, roles::role_ops(scopes, versioned, answers));
    let v = version_at(m, scopes, versioned, p)->0;
    assert(is_answered(answers, v.namespace));
    let k = choose|k: int| 0 <= k < answers.len() && (#[trigger] answers[k]).namespace == v.namespace;
    assert(answer_of_index(m, versioned, number, answers[k]));
    let c = config::config_of(versioned, v.namespace)->0;
    let rows = roles::in_scope(scopes, answers[k]);
    lemma_scoped_rows(m, scopes, c.versioning, number, answers[k]);
    let i = lemma_row_place(m, scopes, c.versioning, number, answers[k], p);
    roles::law_one_head(rows, i);
    let h = roles::head_of(rows, i);
    let head = rows[h].path;
    assert(row_of_index(m, c.versioning, number, rows[h]));
    assert(same_document(m, scopes, versioned, p, head));
    assert forall|q: Seq<char>| #[trigger]
        same_document(m, scopes, versioned, p, q) implies version_settled(
        m,
        scopes,
        versioned,
        number,
        after,
        q,
        head,
    ) by {
        let j = lemma_row_place(m, scopes, c.versioning, number, answers[k], q);
        assert(row_of_index(m, c.versioning, number, rows[j]));
        assert(rows[j].resource_id == rows[i].resource_id);
        assert(roles::head_of(rows, j) == h);
        assert(q != head ==> j != h);
        assert(q == head ==> j == h) by {
            if q == head && j != h {
                assert(rows[j].path != rows[h].path);
            }
        }
        lemma_only_row(rows, j);
        roles::law_roles(m, scopes, versioned, answers);
        lemma_one_answer(scopes, versioned, answers, k, q, head);
        assert(db::note_at(after, q) == roles::with_role(
            db::note_at(m, q),
            if q == head {
                NoteRole::Primary
            } else {
                NoteRole::Archival
            },
        ));
        assert forall|t: Seq<char>| #[trigger]
            db::edge_at(after, q, t) == if roles::wikilink_at(m, q, t) is Some {
                roles::wikilink_at(m, q, t)
            } else if q != head && t == head {
                Some(roles::revision_edge(version_at(m, scopes, versioned, q)->0.weight))
            } else {
                None
            } by {
            lemma_one_answer(scopes, versioned, answers, k, q, t);
            assert(roles::is_older_than(rows, rows.len() as int, q, t) <==> roles::outdated(rows, j)
                && rows[roles::head_of(rows, j)].path == t);
        }
    }
    assert(is_current(m, scopes, versioned, number, after, p, head));
}

proof fn lemma_only_row(rows: Seq<RowModel>, j: int)
    requires
        distinct_rows(rows),
        0 <= j < rows.len(),
    ensures
        roles::is_older(rows, rows.len() as int, rows[j].path) <==> roles::outdated(rows, j),
        forall|t: Seq<char>| #[trigger]
            roles::is_older_than(rows, rows.len() as int, rows[j].path, t) <==> roles::outdated(
                rows,
                j,
            ) && rows[roles::head_of(rows, j)].path == t,
{
    assert forall|i: int| 0 <= i < rows.len() && (#[trigger] rows[i]).path == rows[j].path implies i
        == j by {
        if i < j {
            assert(rows[i].path != rows[j].path);
        }
        if j < i {
            assert(rows[j].path != rows[i].path);
        }
    }
}

proof fn lemma_scoped_rows(
    m: db::IndexModel,
    scopes: Seq<Seq<char>>,
    v: config::VersioningModel,
    number: spec_fn(Seq<char>) -> i64,
    a: AnswerModel,
)
    requires
        rows_of_index(m, v, number, a.rows),
    ensures
        ({
            let rows = roles::in_scope(scopes, a);
            &&& distinct_rows(rows)
            &&& forall|i: int|
                0 <= i < rows.len() ==> row_of_index(m, v, number, #[trigger] rows[i])
                    && config::namespace_of(scopes, rows[i].path) == Some(a.namespace)
        }),
{
    let rows = roles::in_scope(scopes, a);
    let keep = roles::lies_in(scopes, a.namespace);
    lemma_filter_distinct(a.rows, keep);
    assert forall|i: int| 0 <= i < rows.len() implies row_of_index(m, v, number, #[trigger] rows[i])
        && config::namespace_of(scopes, rows[i].path) == Some(a.namespace) by {
        a.rows.lemma_filter_pred(keep, i);
        assert(a.rows.filter(keep).contains(rows[i]));
        a.rows.lemma_filter_contains_rev(keep, rows[i]);
        let k = choose|k: int| 0 <= k < a.rows.len() && a.rows[k] == rows[i];
        assert(row_of_index(m, v, number, a.rows[k]));
    }
}

proof fn lemma_row_place(
    m: db::IndexModel,
    scopes: Seq<Seq<char>>,
    v: config::VersioningModel,
    number: spec_fn(Seq<char>) -> i64,
    a: AnswerModel,
    path: Seq<char>,
) -> (i: int)
    requires
        rows_of_index(m, v, number, a.rows),
        carries(m, v, path),
        config::namespace_of(scopes, path) == Some(a.namespace),
    ensures
        0 <= i < roles::in_scope(scopes, a).len(),
        roles::in_scope(scopes, a)[i].path == path,
        row_of_index(m, v, number, roles::in_scope(scopes, a)[i]),
{
    let rows = roles::in_scope(scopes, a);
    let keep = roles::lies_in(scopes, a.namespace);
    assert(has_row(a.rows, path));
    let k = choose|k: int| 0 <= k < a.rows.len() && (#[trigger] a.rows[k]).path == path;
    a.rows.lemma_filter_contains(keep, k);
    let i = choose|i: int| 0 <= i < rows.len() && rows[i] == a.rows[k];
    assert(row_of_index(m, v, number, a.rows[k]));
    i
}

/// A note that is no version of a document, because its namespace has no
/// versioning config or because it does not carry both keys, is primary once roles
/// have been computed from what the index has, and the edges from it are its
/// wikilinks.
pub proof fn law_other_note_is_primary(
    m: db::IndexModel,
    scopes: Seq<Seq<char>>,
    versioned: Seq<config::ScopedModel>,
    number: spec_fn(Seq<char>) -> i64,
    answers: Seq<AnswerModel>,
    p: Seq<char>,
)
    requires
        answers_of_index(m, scopes, versioned, number, answers),
        version_at(m, scopes, versioned, p) is None,
    ensures
        ({
            let after = db::run_all(m, roles::role_ops(scopes, versioned, answers));
            &&& db::note_at(after, p) == roles::with_role(db::note_at(m, p), NoteRole::Primary)
            &&& forall|t: Seq<char>| #[trigger]
                db::edge_at(after, p, t) == roles::wikilink_at(m, p, t)
        }),
{
    let after = db::run_all(m, roles::role_ops(scopes, versioned, answers));
    roles::law_roles(m, scopes, versioned, answers);
    assert(!roles::superseded(scopes, versioned, answers, p)) by {
        lemma_not_superseded(m, scopes, versioned, number, answers, p, p);
    }
    assert forall|t: Seq<char>| #[trigger]
        db::edge_at(after, p, t) == roles::wikilink_at(m, p, t) by {
        lemma_not_superseded(m, scopes, versioned, number, answers, p, t);
    }
}

proof fn lemma_not_superseded(
    m: db::IndexModel,
    scopes: Seq<Seq<char>>,
    versioned: Seq<config::ScopedModel>,
    number: spec_fn(Seq<char>) -> i64,
    answers: Seq<AnswerModel>,
    p: Seq<char>,
    t: Seq<char>,
)
    requires
        answers_of_index(m, scopes, versioned, number, answers),
        version_at(m, scopes, versioned, p) is None,
    ensures
        !roles::superseded(scopes, versioned, answers, p),
        roles::revision_weight(scopes, versioned, answers, p, t) is None,
{
    match config::namespace_of(scopes, p) {
        Some(ns) => {
            if is_answered(answers, ns) {
                let k = choose|k: int|
                    0 <= k < answers.len() && (#[trigger] answers[k]).namespace == ns;
                lemma_one_answer(scopes, versioned, answers, k, p, t);
                if let Some(c) = config::config_of(versioned, ns) {
                    assert(answer_of_index(m, versioned, number, answers[k]));
                    lemma_scoped_rows(m, scopes, c.versioning, number, answers[k]);
                    let rows = roles::in_scope(scopes, answers[k]);
                    assert forall|i: int| 0 <= i < rows.len() implies (#[trigger] rows[i]).path
                        != p by {
                        assert(row_of_index(m, c.versioning, number, rows[i]));
                    }
                }
            } else {
                lemma_no_answer(scopes, versioned, answers, p, t);
            }
        },
        None => {
            lemma_no_answer(scopes, versioned, answers, p, t);
        },
    }
}

} // verus!
