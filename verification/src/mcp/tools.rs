//! What the tools make of their parameters and of what the index holds.
use vstd::hash_map::StringHashMap;
use vstd::prelude::*;
use vstd::string::StringExecFns;

use crate::db::{EmbeddedChunk, FtsResult};
use crate::lists;
use crate::mcp::graph;
use crate::mcp::graph::GraphWalk;
use crate::mcp::ranking;
use crate::mcp::ranking::{top_places, top_ranked};
use crate::paths;
use crate::paths::{is_inside_vault, joined_path};
use crate::text::{chars_of, same_text, string_of};

verus! {

// ── errors ───────────────────────────────────────────────────────────────────

/// Why a tool refuses a call.
#[derive(Debug, Clone)]
pub enum ToolError {
    /// A parameter is missing or is not a string.
    MissingParameter { name: &'static str },
    /// The path of a note leads out of the vault.
    InvalidNotePath { path: String },
    UnknownTool { name: String },
}

/// What a [`ToolError`] holds.
pub enum ToolErrorModel {
    MissingParameter { name: Seq<char> },
    InvalidNotePath { path: Seq<char> },
    UnknownTool { name: Seq<char> },
}

impl DeepView for ToolError {
    type V = ToolErrorModel;

    open spec fn deep_view(&self) -> ToolErrorModel {
        match self {
            ToolError::MissingParameter { name } => ToolErrorModel::MissingParameter {
                name: name@,
            },
            ToolError::InvalidNotePath { path } => ToolErrorModel::InvalidNotePath {
                path: path@,
            },
            ToolError::UnknownTool { name } => ToolErrorModel::UnknownTool { name: name@ },
        }
    }
}

/// What an error says.
pub open spec fn error_message(e: ToolErrorModel) -> Seq<char> {
    match e {
        ToolErrorModel::MissingParameter { name } => "missing '"@ + name + "' parameter"@,
        ToolErrorModel::InvalidNotePath { path } => "invalid note path: "@ + path,
        ToolErrorModel::UnknownTool { name } => "unknown tool: "@ + name,
    }
}

impl ToolError {
    /// What the error says.
    pub fn message(&self) -> (r: String)
        ensures
            r@ == error_message(self.deep_view()),
    {
        match self {
            ToolError::MissingParameter { name } => {
                let mut r = "missing '".to_owned();
                r.append(name);
                r.append("' parameter");
                r
            },
            ToolError::InvalidNotePath { path } => {
                let mut r = "invalid note path: ".to_owned();
                r.append(path.as_str());
                r
            },
            ToolError::UnknownTool { name } => {
                let mut r = "unknown tool: ".to_owned();
                r.append(name.as_str());
                r
            },
        }
    }
}

/// The text that a failed call is answered with.
pub fn error_text(message: &str) -> (r: String)
    ensures
        r@ == "Error: "@ + message@,
{
    let mut r = "Error: ".to_owned();
    r.append(message);
    r
}

// ── parameters ───────────────────────────────────────────────────────────────

/// How many results a tool gives where it is not told.
pub const DEFAULT_TOP_K: usize = 10;

/// How many hops [`graph_depth`] allows at most.
pub const MAX_DEPTH: usize = 5;

/// A parameter that has to be there: its value, or an error that names it.
pub fn required(name: &'static str, value: Option<String>) -> (r: Result<String, ToolError>)
    ensures
        match value {
            Some(v) => r matches Ok(t) && t@ == v@,
            None => r matches Err(e) && e.deep_view() == (ToolErrorModel::MissingParameter {
                name: name@,
            }),
        },
{
    match value {
        Some(v) => Ok(v),
        None => Err(ToolError::MissingParameter { name }),
    }
}

/// The number of results: what was asked for, else [`DEFAULT_TOP_K`].
pub fn result_count(top_k: Option<u64>) -> (r: usize)
    ensures
        r == match top_k {
            Some(k) => k as usize,
            None => DEFAULT_TOP_K,
        },
{
    match top_k {
        Some(k) => k as usize,
        None => DEFAULT_TOP_K,
    }
}

/// The number of hops: what was asked for, but at most [`MAX_DEPTH`]; else 1.
pub open spec fn hops(depth: Option<u64>) -> usize {
    match depth {
        Some(d) => if d as usize <= MAX_DEPTH {
            d as usize
        } else {
            MAX_DEPTH
        },
        None => 1,
    }
}

/// Computes [`hops`].
pub fn graph_depth(depth: Option<u64>) -> (r: usize)
    ensures
        r == hops(depth),
        r <= MAX_DEPTH,
{
    let d: usize = match depth {
        Some(d) => d as usize,
        None => 1,
    };
    if d <= MAX_DEPTH {
        d
    } else {
        MAX_DEPTH
    }
}

// ── search_notes ─────────────────────────────────────────────────────────────

/// A chunk and how close it is to what was asked for.
#[derive(Debug, Clone)]
pub struct ScoredChunk {
    pub chunk: EmbeddedChunk,
    /// Bits of the `f32` cosine similarity.
    pub score: u32,
    /// The similarity in thousandths.
    pub shown: i64,
    /// The similarity with the boost for a keyword match, in thousandths.
    pub boosted: i64,
}

/// A note that was found.
#[derive(Debug, Clone)]
pub struct SearchResult {
    pub path: String,
    pub section: String,
    pub snippet: String,
    pub score: i64,
}

/// What a [`SearchResult`] holds.
pub struct ResultModel {
    pub path: Seq<char>,
    pub section: Seq<char>,
    pub snippet: Seq<char>,
    pub score: i64,
}

impl DeepView for SearchResult {
    type V = ResultModel;

    open spec fn deep_view(&self) -> ResultModel {
        ResultModel {
            path: self.path@,
            section: self.section@,
            snippet: self.snippet@,
            score: self.score,
        }
    }
}

/// How many characters of a chunk are shown.
pub const SNIPPET_CHARS: usize = 200;

/// The score of a chunk that only the keyword search has found.
pub const FTS_ONLY_SCORE: i64 = 500;

/// Whether the keyword search has found a chunk.
pub open spec fn keyword_hit(fts: Seq<FtsResult>, id: i64) -> bool {
    exists|i: int| 0 <= i < fts.len() && (#[trigger] fts[i]).chunk_id == id
}

/// A chunk that the semantic search has found, as a result. It is boosted if the
/// keyword search has found it too.
pub open spec fn chunk_result(c: ScoredChunk, fts: Seq<FtsResult>) -> ResultModel {
    ResultModel {
        path: c.chunk.note_path@,
        section: c.chunk.heading@,
        snippet: ranking::at_most(c.chunk.content@, SNIPPET_CHARS as nat),
        score: if keyword_hit(fts, c.chunk.id) {
            c.boosted
        } else {
            c.shown
        },
    }
}

/// A chunk that the keyword search has found, as a result.
pub open spec fn fts_result(f: FtsResult) -> ResultModel {
    ResultModel {
        path: f.note_path@,
        section: f.heading@,
        snippet: f.snippet@,
        score: FTS_ONLY_SCORE,
    }
}

/// Whether one of the results is of the note.
pub open spec fn has_path(results: Seq<ResultModel>, path: Seq<char>) -> bool {
    exists|i: int| 0 <= i < results.len() && (#[trigger] results[i]).path == path
}

/// The results but for those of a note that came before.
pub open spec fn first_per_path(results: Seq<ResultModel>) -> Seq<ResultModel>
    decreases results.len(),
{
    if results.len() == 0 {
        seq![]
    } else {
        let before = first_per_path(results.drop_last());
        if has_path(before, results.last().path) {
            before
        } else {
            before.push(results.last())
        }
    }
}

/// The scores of chunks.
pub open spec fn chunk_scores(chunks: Seq<ScoredChunk>) -> Seq<u32> {
    chunks.map_values(|c: ScoredChunk| c.score)
}

/// The chunks that the semantic search finds: the best ones, twice as many as
/// results are asked for.
pub open spec fn best_chunks(top_k: nat, chunks: Seq<ScoredChunk>) -> Seq<ScoredChunk> {
    ranking::at_most(
        ranking::ranking(ranking::score_keys(chunk_scores(chunks))),
        2 * top_k,
    ).map_values(|i: int| chunks[i])
}

/// Whether a chunk is among the chunks.
pub open spec fn has_chunk(chunks: Seq<ScoredChunk>, id: i64) -> bool {
    exists|i: int| 0 <= i < chunks.len() && (#[trigger] chunks[i]).chunk.id == id
}

/// What the semantic search has found, as results.
pub open spec fn semantic_results(best: Seq<ScoredChunk>, fts: Seq<FtsResult>) -> Seq<ResultModel> {
    best.map_values(|c: ScoredChunk| chunk_result(c, fts))
}

/// The chunks that the keyword search has found and the semantic search has not,
/// as results.
pub open spec fn keyword_results(best: Seq<ScoredChunk>, fts: Seq<FtsResult>) -> Seq<ResultModel>
    decreases fts.len(),
{
    if fts.len() == 0 {
        seq![]
    } else {
        let before = keyword_results(best, fts.drop_last());
        if has_chunk(best, fts.last().chunk_id) {
            before
        } else {
            before.push(fts_result(fts.last()))
        }
    }
}

/// All that was found, in the order in which it was: what the semantic search has
/// found, then what only the keyword search has.
pub open spec fn candidates(
    top_k: nat,
    chunks: Seq<ScoredChunk>,
    fts: Seq<FtsResult>,
) -> Seq<ResultModel> {
    let best = best_chunks(top_k, chunks);
    semantic_results(best, fts) + keyword_results(best, fts)
}

/// The scores of results.
pub open spec fn result_scores(results: Seq<ResultModel>) -> Seq<int> {
    results.map_values(|r: ResultModel| r.score as int)
}

/// The results by their scores, the best first; of those with the same score, the
/// one that was found first.
pub open spec fn by_score(results: Seq<ResultModel>) -> Seq<ResultModel> {
    ranking::ranking(result_scores(results)).map_values(|i: int| results[i])
}

/// The results of a search: what was found, best first, each note once, `top_k` at
/// most.
pub open spec fn search_results(
    top_k: nat,
    chunks: Seq<ScoredChunk>,
    fts: Seq<FtsResult>,
) -> Seq<ResultModel> {
    ranking::at_most(first_per_path(by_score(candidates(top_k, chunks, fts))), top_k)
}

/// The first characters of a text.
fn snippet_of(content: &str) -> (r: String)
    ensures
        r@ == ranking::at_most(content@, SNIPPET_CHARS as nat),
{
    let chars = chars_of(content);
    if chars.len() <= SNIPPET_CHARS {
        string_of(chars.as_slice())
    } else {
        string_of(&chars.as_slice()[0..SNIPPET_CHARS])
    }
}

/// The chunks that the keyword search has found.
fn keyword_ids(fts: &Vec<FtsResult>) -> (r: std::collections::HashSet<i64>)
    ensures
        forall|id: i64| #[trigger] r@.contains(id) <==> keyword_hit(fts@, id),
{
    let mut ids: std::collections::HashSet<i64> = std::collections::HashSet::new();
    let mut i: usize = 0;
    while i < fts.len()
        invariant
            i <= fts@.len(),
            forall|id: i64| #[trigger] ids@.contains(id) <==> keyword_hit(fts@.take(i as int), id),
        decreases fts@.len() - i,
    {
        let id: i64 = fts[i].chunk_id;
        let ghost had = ids@;
        ids.insert(id);
        proof {
            let a = fts@.take(i as int);
            let b = fts@.take(i + 1);
            assert forall|k: i64| #[trigger] ids@.contains(k) <==> keyword_hit(b, k) by {
                assert(had.contains(k) <==> keyword_hit(a, k));
                if keyword_hit(a, k) {
                    let j = choose|j: int| 0 <= j < a.len() && (#[trigger] a[j]).chunk_id == k;
                    assert(b[j].chunk_id == k);
                }
                if keyword_hit(b, k) && k != id {
                    let j = choose|j: int| 0 <= j < b.len() && (#[trigger] b[j]).chunk_id == k;
                    assert(a[j].chunk_id == k);
                }
                if k == id {
                    assert(b[i as int].chunk_id == k);
                }
            }
        }
        i = i + 1;
    }
    assert(fts@.take(i as int) =~= fts@);
    ids
}

/// Whether a set of paths is that of the results.
spec fn lists_paths(seen: Map<Seq<char>, bool>, results: Seq<ResultModel>) -> bool {
    forall|p: Seq<char>| #[trigger] seen.contains_key(p) <==> has_path(results, p)
}

/// Adds a result, unless its note is among the results.
fn push_result(
    results: &mut Vec<SearchResult>,
    seen: &mut StringHashMap<bool>,
    result: SearchResult,
)
    requires
        lists_paths(old(seen)@, old(results).deep_view()),
    ensures
        lists_paths(final(seen)@, final(results).deep_view()),
        final(results).deep_view() == if has_path(old(results).deep_view(), result.path@) {
            old(results).deep_view()
        } else {
            old(results).deep_view().push(result.deep_view())
        },
{
    let ghost had = results.deep_view();
    if !seen.contains_key(result.path.as_str()) {
        let ghost paths = seen@;
        seen.insert(result.path.clone(), true);
        results.push(result);
        proof {
            let all = results.deep_view();
            assert(all =~= had.push(result.deep_view()));
            assert forall|p: Seq<char>|
                #[trigger] seen@.contains_key(p) <==> has_path(all, p) by {
                assert(paths.contains_key(p) <==> has_path(had, p));
                if has_path(had, p) {
                    let j = choose|j: int| 0 <= j < had.len() && (#[trigger] had[j]).path == p;
                    assert(all[j].path == p);
                }
                if has_path(all, p) && p != result.path@ {
                    let j = choose|j: int| 0 <= j < all.len() && (#[trigger] all[j]).path == p;
                    assert(had[j].path == p);
                }
                if p == result.path@ {
                    assert(all[had.len() as int].path == p);
                }
            }
        }
    }
}

proof fn lemma_first_per_path_prefix(results: Seq<ResultModel>, n: int)
    requires
        0 <= n <= results.len(),
    ensures
        ({
            let a = first_per_path(results.take(n));
            let b = first_per_path(results);
            a.len() <= b.len() && b.take(a.len() as int) == a
        }),
    decreases results.len(),
{
    if n == results.len() {
        assert(results.take(n) =~= results);
        assert(first_per_path(results).take(first_per_path(results).len() as int)
            =~= first_per_path(results));
    } else {
        let before = results.drop_last();
        lemma_first_per_path_prefix(before, n);
        assert(before.take(n) =~= results.take(n));
        let a = first_per_path(results.take(n));
        let b = first_per_path(results);
        assert(b.take(a.len() as int) =~= first_per_path(before).take(a.len() as int));
    }
}

/// The places of the chunks that the semantic search finds; see [`best_chunks`].
fn best_places(top_k: usize, chunks: &Vec<ScoredChunk>) -> (r: Vec<usize>)
    requires
        2 * top_k <= usize::MAX,
    ensures
        forall|j: int| 0 <= j < r@.len() ==> #[trigger] r@[j] < chunks@.len(),
        chunks_at(chunks@, r@) == best_chunks(top_k as nat, chunks@),
{
    let mut scores: Vec<u32> = Vec::new();
    let mut n: usize = 0;
    while n < chunks.len()
        invariant
            n <= chunks@.len(),
            scores@ =~= chunk_scores(chunks@).take(n as int),
        decreases chunks@.len() - n,
    {
        scores.push(chunks[n].score);
        n = n + 1;
    }
    assert(scores@ =~= chunk_scores(chunks@));
    let places = top_ranked(&scores, 2 * top_k);
    proof {
        let order = ranking::place_numbers(places@);
        let best = best_chunks(top_k as nat, chunks@);
        assert(best.len() == order.len());
        assert forall|i: int| 0 <= i < best.len() implies #[trigger] chunks_at(chunks@, places@)[i]
            == best[i] by {
            assert(order[i] == places@[i]);
        }
        assert(chunks_at(chunks@, places@) =~= best);
    }
    places
}

/// The chunks at these places.
spec fn chunks_at(chunks: Seq<ScoredChunk>, places: Seq<usize>) -> Seq<ScoredChunk> {
    places.map_values(|k: usize| chunks[k as int])
}

/// The ids of the chunks at these places.
fn chunk_ids(chunks: &Vec<ScoredChunk>, places: &Vec<usize>) -> (r: std::collections::HashSet<i64>)
    requires
        forall|j: int| 0 <= j < places@.len() ==> #[trigger] places@[j] < chunks@.len(),
    ensures
        forall|id: i64| #[trigger] r@.contains(id) <==> has_chunk(chunks_at(chunks@, places@), id),
{
    let ghost best = chunks_at(chunks@, places@);
    let mut ids: std::collections::HashSet<i64> = std::collections::HashSet::new();
    let mut i: usize = 0;
    while i < places.len()
        invariant
            i <= places@.len(),
            best == chunks_at(chunks@, places@),
            forall|j: int| 0 <= j < places@.len() ==> #[trigger] places@[j] < chunks@.len(),
            forall|id: i64| #[trigger] ids@.contains(id) <==> has_chunk(best.take(i as int), id),
        decreases places@.len() - i,
    {
        let id: i64 = chunks[places[i]].chunk.id;
        let ghost had = ids@;
        ids.insert(id);
        proof {
            let a = best.take(i as int);
            let b = best.take(i + 1);
            assert(b[i as int].chunk.id == id);
            assert forall|k: i64| #[trigger] ids@.contains(k) <==> has_chunk(b, k) by {
                assert(had.contains(k) <==> has_chunk(a, k));
                if has_chunk(a, k) {
                    let j = choose|j: int| 0 <= j < a.len() && (#[trigger] a[j]).chunk.id == k;
                    assert(b[j].chunk.id == k);
                }
                if has_chunk(b, k) && k != id {
                    let j = choose|j: int| 0 <= j < b.len() && (#[trigger] b[j]).chunk.id == k;
                    assert(a[j].chunk.id == k);
                }
            }
        }
        i = i + 1;
    }
    assert(best.take(i as int) =~= best);
    ids
}

/// The chunks at these places as results; see [`semantic_results`].
fn found_by_meaning(chunks: &Vec<ScoredChunk>, places: &Vec<usize>, fts: &Vec<FtsResult>) -> (r:
    Vec<SearchResult>)
    requires
        forall|j: int| 0 <= j < places@.len() ==> #[trigger] places@[j] < chunks@.len(),
    ensures
        r.deep_view() == semantic_results(chunks_at(chunks@, places@), fts@),
{
    let ids = keyword_ids(fts);
    let ghost best = chunks_at(chunks@, places@);
    let ghost all = semantic_results(best, fts@);
    let mut results: Vec<SearchResult> = Vec::new();
    let mut i: usize = 0;
    assert(results.deep_view() =~= all.take(0));
    while i < places.len()
        invariant
            i <= places@.len(),
            best == chunks_at(chunks@, places@),
            all == semantic_results(best, fts@),
            forall|j: int| 0 <= j < places@.len() ==> #[trigger] places@[j] < chunks@.len(),
            forall|id: i64| #[trigger] ids@.contains(id) <==> keyword_hit(fts@, id),
            results.deep_view() == all.take(i as int),
        decreases places@.len() - i,
    {
        let c = &chunks[places[i]];
        let score: i64 = if ids.contains(&c.chunk.id) {
            c.boosted
        } else {
            c.shown
        };
        let ghost had = results.deep_view();
        let result = SearchResult {
            path: c.chunk.note_path.clone(),
            section: c.chunk.heading.clone(),
            snippet: snippet_of(c.chunk.content.as_str()),
            score,
        };
        results.push(result);
        proof {
            assert(best[i as int] == *c);
            assert(result.deep_view() == all[i as int]);
            assert(results.deep_view() =~= had.push(result.deep_view()));
            assert(all.take(i + 1) =~= all.take(i as int).push(all[i as int]));
        }
        i = i + 1;
    }
    assert(all.take(i as int) =~= all);
    results
}

/// All that was found; see [`candidates`].
fn all_found(top_k: usize, chunks: &Vec<ScoredChunk>, fts: &Vec<FtsResult>) -> (r: Vec<
    SearchResult,
>)
    requires
        2 * top_k <= usize::MAX,
    ensures
        r.deep_view() == candidates(top_k as nat, chunks@, fts@),
{
    let places = best_places(top_k, chunks);
    let ids = chunk_ids(chunks, &places);
    let mut results = found_by_meaning(chunks, &places, fts);
    let ghost best = best_chunks(top_k as nat, chunks@);
    let ghost semantic = results.deep_view();
    let mut j: usize = 0;
    assert(results.deep_view() =~= semantic + keyword_results(best, fts@.take(0)));
    while j < fts.len()
        invariant
            j <= fts@.len(),
            forall|id: i64| #[trigger] ids@.contains(id) <==> has_chunk(best, id),
            results.deep_view() == semantic + keyword_results(best, fts@.take(j as int)),
        decreases fts@.len() - j,
    {
        let f = &fts[j];
        let ghost had = results.deep_view();
        proof {
            assert(fts@.take(j + 1).drop_last() =~= fts@.take(j as int));
            assert(fts@.take(j + 1).last() == *f);
        }
        if !ids.contains(&f.chunk_id) {
            let result = SearchResult {
                path: f.note_path.clone(),
                section: f.heading.clone(),
                snippet: f.snippet.clone(),
                score: FTS_ONLY_SCORE,
            };
            results.push(result);
            assert(results.deep_view() =~= had.push(fts_result(*f)));
            assert(results.deep_view() =~= semantic + keyword_results(best, fts@.take(j + 1)));
        }
        j = j + 1;
    }
    assert(fts@.take(j as int) =~= fts@);
    results
}

/// Merges what the two searches have found. `chunks` are the chunks of the index
/// with their similarity to the query, `fts` what the keyword search has found,
/// best first.
///
/// A chunk's score is its similarity, boosted if the keyword search has found it
/// too; a chunk that only the keyword search has found has a fixed score. The
/// results are ranked by their scores; of each note the best is kept.
pub fn search_notes(top_k: usize, chunks: &Vec<ScoredChunk>, fts: &Vec<FtsResult>) -> (r: Vec<
    SearchResult,
>)
    requires
        2 * top_k <= usize::MAX,
    ensures
        r.deep_view() == search_results(top_k as nat, chunks@, fts@),
{
    let found = all_found(top_k, chunks, fts);
    let ghost all = found.deep_view();
    let mut scores: Vec<i64> = Vec::new();
    let mut n: usize = 0;
    while n < found.len()
        invariant
            n <= found@.len(),
            all == found.deep_view(),
            ranking::key_numbers(scores@) =~= result_scores(all).take(n as int),
        decreases found@.len() - n,
    {
        let ghost had = ranking::key_numbers(scores@);
        let score: i64 = found[n].score;
        scores.push(score);
        assert(all[n as int].score == score);
        assert(ranking::key_numbers(scores@) =~= had.push(score as int));
        n = n + 1;
    }
    assert(ranking::key_numbers(scores@) =~= result_scores(all));
    assert(scores@.len() == ranking::key_numbers(scores@).len());
    let places = top_places(&scores, found.len());
    let ghost order = ranking::place_numbers(places@);
    let ghost ranked = by_score(all);
    proof {
        ranking::law_ranking(result_scores(all));
        assert(order == ranking::ranking(result_scores(all)));
    }
    let mut results: Vec<SearchResult> = Vec::new();
    let mut seen: StringHashMap<bool> = StringHashMap::new();
    let mut i: usize = 0;
    assert(results.deep_view() =~= first_per_path(ranked.take(0)));
    while i < places.len() && results.len() < top_k
        invariant
            i <= places@.len(),
            results@.len() <= top_k,
            all == found.deep_view(),
            scores@.len() == found@.len(),
            order == ranking::place_numbers(places@),
            ranked == order.map_values(|i: int| all[i]),
            forall|j: int| 0 <= j < places@.len() ==> #[trigger] places@[j] < scores@.len(),
            results.deep_view() == first_per_path(ranked.take(i as int)),
            lists_paths(seen@, results.deep_view()),
        decreases places@.len() - i,
    {
        let c = &found[places[i]];
        let result = SearchResult {
            path: c.path.clone(),
            section: c.section.clone(),
            snippet: c.snippet.clone(),
            score: c.score,
        };
        proof {
            assert(order[i as int] == places@[i as int]);
            assert(result.deep_view() == all[places@[i as int] as int]);
            assert(ranked[i as int] == result.deep_view());
            assert(ranked.take(i + 1).drop_last() =~= ranked.take(i as int));
            assert(ranked.take(i + 1).last() == result.deep_view());
        }
        push_result(&mut results, &mut seen, result);
        assert(results.deep_view().len() == results@.len());
        i = i + 1;
    }
    proof {
        let kept = results.deep_view();
        assert(kept.len() == results@.len());
        assert(ranked.len() == places@.len());
        lemma_first_per_path_prefix(ranked, i as int);
        if kept.len() < top_k {
            assert(ranked.take(i as int) =~= ranked);
        } else {
            assert(ranking::at_most(first_per_path(ranked), top_k as nat) =~= kept);
        }
    }
    results
}

// ── get_note ─────────────────────────────────────────────────────────────────

/// The file of a note that was asked for by its vault-relative path. Absolute
/// paths and paths with a `..` component are refused.
pub fn get_note(vault: &str, path: &str) -> (r: Result<String, ToolError>)
    ensures
        match r {
            Ok(file) => paths::inside_vault(path@) && file@ == paths::join_path(vault@, path@),
            Err(e) => !paths::inside_vault(path@) && e.deep_view() == (
            ToolErrorModel::InvalidNotePath { path: path@ }),
        },
{
    if is_inside_vault(path) {
        Ok(joined_path(vault, path))
    } else {
        Err(ToolError::InvalidNotePath { path: path.to_owned() })
    }
}

/// What is shown of a note file: its content, or a remark if it could not be
/// read.
pub fn shown_content(content: Option<String>) -> (r: String)
    ensures
        r@ == match content {
            Some(c) => c@,
            None => "(file not found on disk)"@,
        },
{
    match content {
        Some(c) => c,
        None => "(file not found on disk)".to_owned(),
    }
}

// ── related_notes ────────────────────────────────────────────────────────────

/// A note and how close it is to another one.
#[derive(Debug, Clone)]
pub struct ScoredNote {
    pub path: String,
    /// Bits of the `f32` cosine similarity.
    pub score: u32,
    /// The similarity in thousandths.
    pub shown: i64,
}

/// A note that is close to another one.
#[derive(Debug, Clone)]
pub struct RelatedNote {
    pub path: String,
    pub score: i64,
}

/// What a [`RelatedNote`] holds.
pub struct RelatedModel {
    pub path: Seq<char>,
    pub score: i64,
}

impl DeepView for RelatedNote {
    type V = RelatedModel;

    open spec fn deep_view(&self) -> RelatedModel {
        RelatedModel { path: self.path@, score: self.score }
    }
}

/// Tells the notes that are not the one at `path`.
pub open spec fn is_other(path: Seq<char>) -> spec_fn(ScoredNote) -> bool {
    |n: ScoredNote| n.path@ != path
}

/// The notes but for the one at `path`.
pub open spec fn others(notes: Seq<ScoredNote>, path: Seq<char>) -> Seq<ScoredNote> {
    notes.filter(is_other(path))
}

/// The scores of notes.
pub open spec fn note_scores(notes: Seq<ScoredNote>) -> Seq<u32> {
    notes.map_values(|n: ScoredNote| n.score)
}

/// The notes that are closest to the one at `path`, best first.
pub open spec fn closest(path: Seq<char>, top_k: nat, notes: Seq<ScoredNote>) -> Seq<
    RelatedModel,
> {
    let rest = others(notes, path);
    ranking::at_most(ranking::ranking(ranking::score_keys(note_scores(rest))), top_k).map_values(
        |i: int| RelatedModel { path: rest[i].path@, score: rest[i].shown },
    )
}

/// The notes that are closest to the one at `path`. `notes` are the notes with a
/// graph embedding and their similarity to it, `None` if the note itself has no
/// graph embedding.
pub fn related_notes(path: &str, top_k: usize, notes: &Option<Vec<ScoredNote>>) -> (r: Vec<
    RelatedNote,
>)
    ensures
        r.deep_view() == match *notes {
            Some(notes) => closest(path@, top_k as nat, notes@),
            None => seq![],
        },
{
    let mut results: Vec<RelatedNote> = Vec::new();
    let notes = match notes {
        Some(n) => n,
        None => {
            assert(results.deep_view() =~= seq![]);
            return results;
        },
    };
    let ghost all = notes@;
    let ghost keep = is_other(path@);
    let mut rest: Vec<usize> = Vec::new();
    let mut scores: Vec<u32> = Vec::new();
    let mut i: usize = 0;
    proof {
        reveal(Seq::filter);
        assert(rest@.map_values(|k: usize| all[k as int]) =~= all.take(0).filter(keep));
        assert(scores@ =~= note_scores(all.take(0).filter(keep)));
    }
    while i < notes.len()
        invariant
            i <= notes@.len(),
            all == notes@,
            keep == is_other(path@),
            forall|j: int| 0 <= j < rest@.len() ==> #[trigger] rest@[j] < all.len(),
            rest@.map_values(|k: usize| all[k as int]) == all.take(i as int).filter(keep),
            scores@ == note_scores(all.take(i as int).filter(keep)),
        decreases notes@.len() - i,
    {
        let ghost had = rest@.map_values(|k: usize| all[k as int]);
        let ghost had_scores = scores@;
        proof {
            reveal(Seq::filter);
            assert(all.take(i + 1).drop_last() =~= all.take(i as int));
            assert(all.take(i + 1).last() == all[i as int]);
        }
        if !same_text(notes[i].path.as_str(), path) {
            rest.push(i);
            scores.push(notes[i].score);
            proof {
                assert(rest@.map_values(|k: usize| all[k as int]) =~= had.push(all[i as int]));
                assert(scores@ =~= note_scores(had.push(all[i as int])));
            }
        }
        i = i + 1;
    }
    assert(all.take(i as int) =~= all);
    let ghost picked = others(all, path@);
    assert(picked =~= rest@.map_values(|k: usize| all[k as int]));
    let places = top_ranked(&scores, top_k);
    let ghost order = ranking::place_numbers(places@);
    let ghost shown = closest(path@, top_k as nat, all);
    let mut n: usize = 0;
    assert(results.deep_view() =~= shown.take(0));
    while n < places.len()
        invariant
            n <= places@.len(),
            all == notes@,
            order == ranking::place_numbers(places@),
            picked =~= rest@.map_values(|k: usize| all[k as int]),
            shown == order.map_values(
                |i: int| RelatedModel { path: picked[i].path@, score: picked[i].shown },
            ),
            scores@.len() == rest@.len(),
            forall|j: int| 0 <= j < rest@.len() ==> #[trigger] rest@[j] < all.len(),
            forall|j: int| 0 <= j < places@.len() ==> #[trigger] places@[j] < scores@.len(),
            results.deep_view() == shown.take(n as int),
        decreases places@.len() - n,
    {
        let note = &notes[rest[places[n]]];
        let ghost had = results.deep_view();
        let result = RelatedNote { path: note.path.clone(), score: note.shown };
        results.push(result);
        proof {
            assert(order[n as int] == places@[n as int]);
            assert(picked[order[n as int]] == *note);
            assert(results.deep_view() =~= had.push(result.deep_view()));
            assert(shown.take(n + 1) =~= shown.take(n as int).push(shown[n as int]));
        }
        n = n + 1;
    }
    assert(shown.take(n as int) =~= shown);
    results
}

// ── graph_neighbors ──────────────────────────────────────────────────────────

/// The walk that finds the neighbors of the note at `path`.
pub fn graph_neighbors(path: &str, depth: Option<u64>) -> (r: GraphWalk)
    ensures
        r@ == graph::walk_from(path@, hops(depth) as nat),
{
    GraphWalk::new(path, graph_depth(depth))
}

// ── laws ─────────────────────────────────────────────────────────────────────

/// Whether no two results are of the same note.
pub open spec fn distinct_notes(results: Seq<ResultModel>) -> bool {
    forall|i: int, j: int|
        0 <= i < j < results.len() ==> (#[trigger] results[i]).path != (#[trigger] results[j]).path
}

proof fn lemma_first_per_path(results: Seq<ResultModel>)
    ensures
        distinct_notes(first_per_path(results)),
        forall|p: Seq<char>| has_path(results, p) <==> #[trigger] has_path(
            first_per_path(results),
            p,
        ),
        forall|k: int|
            0 <= k < first_per_path(results).len() ==> first_of_note(
                results,
                #[trigger] first_per_path(results)[k],
            ),
    decreases results.len(),
{
    if results.len() > 0 {
        let before = results.drop_last();
        let last = results.last();
        lemma_first_per_path(before);
        let a = first_per_path(before);
        let b = first_per_path(results);
        assert forall|p: Seq<char>| has_path(results, p) <==> #[trigger] has_path(b, p) by {
            assert(has_path(before, p) <==> has_path(a, p));
            if has_path(before, p) {
                let j = choose|j: int| 0 <= j < before.len() && (#[trigger] before[j]).path == p;
                assert(results[j].path == p);
                let k = choose|k: int| 0 <= k < a.len() && (#[trigger] a[k]).path == p;
                assert(b[k].path == p);
            }
            if has_path(results, p) && p != last.path {
                let j = choose|j: int| 0 <= j < results.len() && (#[trigger] results[j]).path == p;
                assert(before[j].path == p);
            }
            if p == last.path {
                assert(results[results.len() - 1].path == p);
                if !has_path(a, p) {
                    assert(b[a.len() as int].path == p);
                }
            }
            if has_path(b, p) && p != last.path {
                let k = choose|k: int| 0 <= k < b.len() && (#[trigger] b[k]).path == p;
                assert(a[k].path == p);
            }
        }
        assert forall|k: int| 0 <= k < b.len() implies first_of_note(
            results,
            #[trigger] b[k],
        ) by {
            if k < a.len() {
                assert(b[k] == a[k]);
                assert(first_of_note(before, a[k]));
                let j = choose|j: int| is_first(before, j) && before[j] == a[k];
                assert(is_first(results, j)) by {
                    assert forall|i: int| 0 <= i < j implies (#[trigger] results[i]).path
                        != results[j].path by {
                        assert(before[i].path != before[j].path);
                    }
                }
                assert(results[j] == b[k]);
            } else {
                let j = results.len() - 1;
                assert(b[k] == last);
                assert(!has_path(before, last.path)) by {
                    assert(has_path(before, last.path) <==> has_path(a, last.path));
                }
                assert(is_first(results, j)) by {
                    assert forall|i: int| 0 <= i < j implies (#[trigger] results[i]).path
                        != results[j].path by {
                        assert(before[i] == results[i]);
                    }
                }
            }
        }
        if !has_path(a, last.path) {
            assert forall|i: int, j: int| 0 <= i < j < b.len() implies (#[trigger] b[i]).path != (
            #[trigger] b[j]).path by {
                assert(a[i] == b[i]);
            }
        }
    }
}

/// Whether the result at `i` is the first of its note.
pub open spec fn is_first(results: Seq<ResultModel>, i: int) -> bool {
    0 <= i < results.len() && forall|j: int|
        0 <= j < i ==> (#[trigger] results[j]).path != results[i].path
}

/// Whether a result is the first one of its note.
pub open spec fn first_of_note(results: Seq<ResultModel>, r: ResultModel) -> bool {
    exists|i: int| #[trigger] is_first(results, i) && results[i] == r
}

proof fn lemma_by_score(found: Seq<ResultModel>)
    ensures
        by_score(found).len() == found.len(),
        forall|i: int, j: int|
            0 <= i <= j < found.len() ==> (#[trigger] by_score(found)[i]).score >= (
            #[trigger] by_score(found)[j]).score,
        forall|p: Seq<char>| has_path(found, p) <==> #[trigger] has_path(by_score(found), p),
{
    let keys = result_scores(found);
    let order = ranking::ranking(keys);
    let ranked = by_score(found);
    ranking::law_ranking(keys);
    assert(keys.len() == found.len());
    assert forall|i: int| 0 <= i < found.len() implies 0 <= #[trigger] order[i] < found.len() by {
        assert(order.contains(order[i]));
    }
    assert forall|i: int, j: int| 0 <= i <= j < found.len() implies (#[trigger] ranked[i]).score
        >= (#[trigger] ranked[j]).score by {
        assert(keys[order[i]] == ranked[i].score && keys[order[j]] == ranked[j].score);
        if i < j {
            assert(ranking::ranked_before(keys, order[i], order[j]));
        }
    }
    assert forall|p: Seq<char>| has_path(found, p) <==> #[trigger] has_path(ranked, p) by {
        if has_path(found, p) {
            let x = choose|x: int| 0 <= x < found.len() && (#[trigger] found[x]).path == p;
            assert(order.contains(x));
            let k = choose|k: int| 0 <= k < order.len() && order[k] == x;
            assert(ranked[k].path == p);
        }
        if has_path(ranked, p) {
            let k = choose|k: int| 0 <= k < ranked.len() && (#[trigger] ranked[k]).path == p;
            assert(found[order[k]].path == p);
        }
    }
}

/// A search gives at most as many results as were asked for, each note once, and
/// of each note what comes first by score. Where it gives fewer than were asked
/// for, it gives every note that was found.
pub proof fn law_search_results(top_k: nat, chunks: Seq<ScoredChunk>, fts: Seq<FtsResult>)
    ensures
        ({
            let all = candidates(top_k, chunks, fts);
            let r = search_results(top_k, chunks, fts);
            &&& r.len() <= top_k
            &&& distinct_notes(r)
            &&& forall|k: int| 0 <= k < r.len() ==> first_of_note(by_score(all), #[trigger] r[k])
            &&& r.len() < top_k ==> forall|p: Seq<char>|
                has_path(all, p) <==> #[trigger] has_path(r, p)
        }),
{
    let all = candidates(top_k, chunks, fts);
    let ranked = by_score(all);
    let r = search_results(top_k, chunks, fts);
    let found = first_per_path(ranked);
    lemma_by_score(all);
    lemma_first_per_path(ranked);
    assert forall|k: int| 0 <= k < r.len() implies first_of_note(ranked, #[trigger] r[k]) by {
        assert(r[k] == found[k]);
    }
    assert(distinct_notes(r)) by {
        assert forall|i: int, j: int| 0 <= i < j < r.len() implies (#[trigger] r[i]).path != (
        #[trigger] r[j]).path by {
            assert(found[i].path != found[j].path);
        }
    }
    if r.len() < top_k {
        assert forall|p: Seq<char>| has_path(all, p) <==> #[trigger] has_path(r, p) by {
            assert(has_path(ranked, p) <==> has_path(found, p));
        }
    }
}

proof fn lemma_first_per_path_ranked(results: Seq<ResultModel>)
    requires
        forall|i: int, j: int|
            0 <= i <= j < results.len() ==> (#[trigger] results[i]).score >= (
            #[trigger] results[j]).score,
    ensures
        forall|i: int, j: int|
            0 <= i <= j < first_per_path(results).len() ==> (
            #[trigger] first_per_path(results)[i]).score >= (
            #[trigger] first_per_path(results)[j]).score,
    decreases results.len(),
{
    if results.len() > 0 {
        let before = results.drop_last();
        assert forall|i: int, j: int| 0 <= i <= j < before.len() implies (
        #[trigger] before[i]).score >= (#[trigger] before[j]).score by {
            assert(before[i] == results[i] && before[j] == results[j]);
        }
        lemma_first_per_path_ranked(before);
        lemma_first_per_path(before);
        let a = first_per_path(before);
        let b = first_per_path(results);
        assert forall|i: int, j: int| 0 <= i <= j < b.len() implies (#[trigger] b[i]).score >= (
        #[trigger] b[j]).score by {
            if j < a.len() {
                assert(a[i] == b[i] && a[j] == b[j]);
            } else if i < a.len() {
                assert(a[i] == b[i]);
                assert(first_of_note(before, a[i]));
                let x = choose|x: int| is_first(before, x) && before[x] == a[i];
                assert(results[x].score >= results[results.len() - 1].score);
            }
        }
    }
}

/// The results of a search are ranked: none has a greater score than one before
/// it.
pub proof fn law_search_ranked(top_k: nat, chunks: Seq<ScoredChunk>, fts: Seq<FtsResult>)
    ensures
        forall|i: int, j: int|
            0 <= i < j < search_results(top_k, chunks, fts).len() ==> (
            #[trigger] search_results(top_k, chunks, fts)[i]).score >= (
            #[trigger] search_results(top_k, chunks, fts)[j]).score,
{
    let all = candidates(top_k, chunks, fts);
    lemma_by_score(all);
    lemma_first_per_path_ranked(by_score(all));
    let found = first_per_path(by_score(all));
    let r = search_results(top_k, chunks, fts);
    assert forall|i: int, j: int| 0 <= i < j < r.len() implies (#[trigger] r[i]).score >= (
    #[trigger] r[j]).score by {
        assert(r[i] == found[i] && r[j] == found[j]);
    }
}

/// The first result of a search is the best of all that was found, if anything is
/// asked for and something was found: nothing has a greater score, and nothing that
/// was found before it has the same one.
pub proof fn law_search_best_first(top_k: nat, chunks: Seq<ScoredChunk>, fts: Seq<FtsResult>)
    requires
        top_k > 0,
        candidates(top_k, chunks, fts).len() > 0,
    ensures
        ({
            let all = candidates(top_k, chunks, fts);
            let keys = result_scores(all);
            let best = ranking::ranking(keys)[0];
            &&& 0 <= best < all.len()
            &&& forall|i: int|
                0 <= i < all.len() && i != best ==> #[trigger] ranking::ranked_before(
                    keys,
                    best,
                    i,
                )
            &&& search_results(top_k, chunks, fts).len() > 0
            &&& search_results(top_k, chunks, fts)[0] == all[best]
        }),
{
    let all = candidates(top_k, chunks, fts);
    let keys = result_scores(all);
    let order = ranking::ranking(keys);
    let best = order[0];
    ranking::law_ranking(keys);
    assert(keys.len() == all.len());
    assert(order.contains(best));
    assert forall|i: int|
        0 <= i < all.len() && i != best implies #[trigger] ranking::ranked_before(
        keys,
        best,
        i,
    ) by {
        assert(order.contains(i));
        let k = choose|k: int| 0 <= k < order.len() && order[k] == i;
        assert(ranking::ranked_before(keys, order[0], order[k]));
    }
    let ranked = by_score(all);
    lemma_first_per_path_prefix(ranked, 1);
    let one = ranked.take(1);
    assert(one.drop_last() =~= seq![]);
    assert(first_per_path(one.drop_last()) =~= seq![]);
    assert(first_per_path(one) =~= seq![ranked[0]]);
    assert(first_per_path(ranked).take(1)[0] == ranked[0]);
}

proof fn lemma_filter_member(notes: Seq<ScoredNote>, keep: spec_fn(ScoredNote) -> bool, i: int)
    requires
        0 <= i < notes.filter(keep).len(),
    ensures
        notes.contains(notes.filter(keep)[i]),
    decreases notes.len(),
{
    reveal(Seq::filter);
    if notes.len() > 0 {
        let before = notes.drop_last();
        if i < before.filter(keep).len() {
            lemma_filter_member(before, keep, i);
            let k = choose|k: int|
                0 <= k < before.len() && before[k] == before.filter(keep)[i];
            assert(notes[k] == notes.filter(keep)[i]);
        } else {
            assert(notes[notes.len() - 1] == notes.filter(keep)[i]);
        }
    }
}

/// The notes that are closest to a note leave it out, are at most as many as
/// were asked for, and come in the order of their scores; each is one of the notes.
pub proof fn law_related_notes(path: Seq<char>, top_k: nat, notes: Seq<ScoredNote>)
    ensures
        ({
            let rest = others(notes, path);
            let keys = ranking::score_keys(note_scores(rest));
            let order = ranking::ranking(keys);
            let r = closest(path, top_k, notes);
            &&& r.len() == if rest.len() <= top_k {
                rest.len()
            } else {
                top_k
            }
            &&& forall|i: int|
                0 <= i < r.len() ==> (#[trigger] r[i]).path != path && 0 <= order[i] < rest.len()
                    && r[i].path == rest[order[i]].path@ && notes.contains(rest[order[i]])
            &&& forall|i: int, j: int|
                0 <= i < j < r.len() ==> ranking::ranked_before(
                    keys,
                    #[trigger] order[i],
                    #[trigger] order[j],
                )
        }),
{
    let keep = is_other(path);
    let rest = others(notes, path);
    let keys = ranking::score_keys(note_scores(rest));
    let order = ranking::ranking(keys);
    let r = closest(path, top_k, notes);
    ranking::law_ranking(keys);
    assert(keys.len() == rest.len());
    assert(order.len() == rest.len());
    assert(r.len() == ranking::at_most(order, top_k).len());
    assert forall|i: int| 0 <= i < order.len() implies 0 <= #[trigger] order[i] < rest.len() by {
        assert(order.contains(order[i]));
    }
    assert forall|i: int| 0 <= i < r.len() implies (#[trigger] r[i]).path != path && 0 <= order[i]
        < rest.len() && r[i].path == rest[order[i]].path@ && notes.contains(rest[order[i]]) by {
        assert(ranking::at_most(order, top_k)[i] == order[i]);
        assert(0 <= order[i] < rest.len());
        notes.lemma_filter_pred(keep, order[i]);
        lemma_filter_member(notes, keep, order[i]);
    }
    assert forall|i: int, j: int| 0 <= i < j < r.len() implies ranking::ranked_before(
        keys,
        #[trigger] order[i],
        #[trigger] order[j],
    ) by {
        assert(j < order.len());
    }
}

/// Whether a result is what the semantic search has found in a chunk: the chunk's
/// note, heading and first two hundred characters, with its similarity, or with the
/// boosted one if the keyword search has found the chunk too.
pub open spec fn shows_chunk(r: ResultModel, c: ScoredChunk, fts: Seq<FtsResult>) -> bool {
    &&& r.path == c.chunk.note_path@
    &&& r.section == c.chunk.heading@
    &&& r.snippet.len() == if c.chunk.content@.len() <= 200 {
        c.chunk.content@.len()
    } else {
        200
    }
    &&& forall|i: int| 0 <= i < r.snippet.len() ==> #[trigger] r.snippet[i] == c.chunk.content@[i]
    &&& (exists|j: int| 0 <= j < fts.len() && (#[trigger] fts[j]).chunk_id == c.chunk.id)
        ==> r.score == c.boosted
    &&& (forall|j: int| 0 <= j < fts.len() ==> (#[trigger] fts[j]).chunk_id != c.chunk.id)
        ==> r.score == c.shown
}

/// Whether a result is what the keyword search has found.
pub open spec fn shows_hit(r: ResultModel, f: FtsResult) -> bool {
    r.path == f.note_path@ && r.section == f.heading@ && r.snippet == f.snippet@ && r.score == 500
}

/// The semantic search finds the best chunks, twice as many as results are asked for
/// or all if there are fewer: each is one of the chunks, and no chunk that is left
/// out has a greater score than one that is found.
pub proof fn law_best_chunks(top_k: nat, chunks: Seq<ScoredChunk>)
    ensures
        ({
            let best = best_chunks(top_k, chunks);
            &&& best.len() == if chunks.len() <= 2 * top_k {
                chunks.len()
            } else {
                2 * top_k
            }
            &&& forall|i: int| 0 <= i < best.len() ==> chunks.contains(#[trigger] best[i])
            &&& forall|n: int, i: int|
                0 <= n < chunks.len() && 0 <= i < best.len() ==> best.contains(
                    #[trigger] chunks[n],
                ) || ranking::score_key((#[trigger] best[i]).score) >= ranking::score_key(
                    chunks[n].score,
                )
            &&& chunks.len() <= 2 * top_k ==> forall|n: int|
                0 <= n < chunks.len() ==> best.contains(#[trigger] chunks[n])
        }),
{
    let best = best_chunks(top_k, chunks);
    let keys = ranking::score_keys(chunk_scores(chunks));
    let order = ranking::ranking(keys);
    ranking::law_ranking(keys);
    ranking::law_at_most(order, 2 * top_k);
    assert(keys.len() == chunks.len());
    assert forall|i: int| 0 <= i < order.len() implies 0 <= #[trigger] order[i] < chunks.len() by {
        assert(order.contains(order[i]));
    }
    assert forall|i: int| 0 <= i < best.len() implies #[trigger] best[i] == chunks[order[i]] by {
        assert(ranking::at_most(order, 2 * top_k)[i] == order[i]);
    }
    assert forall|i: int| 0 <= i < best.len() implies chunks.contains(#[trigger] best[i]) by {
        assert(0 <= order[i] < chunks.len());
    }
    assert forall|n: int| 0 <= n < chunks.len() implies #[trigger] keys[n] == ranking::score_key(
        chunks[n].score,
    ) by {
        assert(chunk_scores(chunks)[n] == chunks[n].score);
    }
    assert forall|n: int, i: int|
        0 <= n < chunks.len() && 0 <= i < best.len() implies best.contains(#[trigger] chunks[n])
        || ranking::score_key((#[trigger] best[i]).score) >= ranking::score_key(
        chunks[n].score,
    ) by {
        assert(order.contains(n));
        let k = choose|k: int| 0 <= k < order.len() && order[k] == n;
        if k < best.len() {
            assert(best[k] == chunks[n]);
        } else {
            assert(ranking::ranked_before(keys, order[i], order[k]));
            assert(keys[order[i]] >= keys[n]);
            assert(keys[order[i]] == ranking::score_key(chunks[order[i]].score));
            assert(keys[n] == ranking::score_key(chunks[n].score));
        }
    }
    if chunks.len() <= 2 * top_k {
        assert forall|n: int| 0 <= n < chunks.len() implies best.contains(#[trigger] chunks[n]) by {
            assert(order.contains(n));
            let k = choose|k: int| 0 <= k < order.len() && order[k] == n;
            assert(best[k] == chunks[n]);
        }
    }
}

proof fn lemma_keyword_results(best: Seq<ScoredChunk>, fts: Seq<FtsResult>)
    ensures
        forall|i: int|
            0 <= i < fts.len() && !has_chunk(best, (#[trigger] fts[i]).chunk_id)
                ==> keyword_results(best, fts).contains(fts_result(fts[i])),
        forall|k: int|
            0 <= k < keyword_results(best, fts).len() ==> is_hit(
                #[trigger] keyword_results(best, fts)[k],
                best,
                fts,
            ),
    decreases fts.len(),
{
    if fts.len() > 0 {
        let before = fts.drop_last();
        let a = keyword_results(best, before);
        let b = keyword_results(best, fts);
        lemma_keyword_results(best, before);
        lists::lemma_push_contains(a, fts_result(fts.last()));
        assert forall|i: int|
            0 <= i < fts.len() && !has_chunk(best, (#[trigger] fts[i]).chunk_id) implies b.contains(
            fts_result(fts[i]),
        ) by {
            if i < before.len() {
                assert(before[i] == fts[i]);
            }
        }
        assert forall|k: int| 0 <= k < b.len() implies is_hit(#[trigger] b[k], best, fts) by {
            if k < a.len() {
                assert(a[k] == b[k]);
                assert(is_hit(a[k], best, before));
                let i = choose|i: int|
                    0 <= i < before.len() && !has_chunk(best, (#[trigger] before[i]).chunk_id)
                        && shows_hit(a[k], before[i]);
                assert(fts[i] == before[i]);
            } else {
                assert(shows_hit(b[k], fts[fts.len() - 1]));
            }
        }
    }
}

/// Whether a result is a keyword hit in a chunk that is not among the best.
pub open spec fn is_hit(r: ResultModel, best: Seq<ScoredChunk>, fts: Seq<FtsResult>) -> bool {
    exists|i: int|
        0 <= i < fts.len() && !has_chunk(best, (#[trigger] fts[i]).chunk_id) && shows_hit(r, fts[i])
}

/// Whether a result is one of the best chunks.
pub open spec fn is_best(r: ResultModel, best: Seq<ScoredChunk>, fts: Seq<FtsResult>) -> bool {
    exists|i: int| 0 <= i < best.len() && shows_chunk(r, #[trigger] best[i], fts)
}

/// Every one of the best chunks is a candidate, and so is every keyword hit whose
/// chunk is not among them, each with what it shows; nothing else is.
pub proof fn law_candidates(top_k: nat, chunks: Seq<ScoredChunk>, fts: Seq<FtsResult>)
    ensures
        ({
            let best = best_chunks(top_k, chunks);
            let all = candidates(top_k, chunks, fts);
            &&& forall|i: int|
                0 <= i < best.len() ==> i < all.len() && shows_chunk(
                    all[i],
                    #[trigger] best[i],
                    fts,
                )
            &&& forall|i: int|
                0 <= i < fts.len() && (forall|j: int|
                    0 <= j < best.len() ==> (#[trigger] best[j]).chunk.id != fts[i].chunk_id)
                    ==> #[trigger] shown_among(all, fts[i])
            &&& forall|k: int|
                best.len() <= k < all.len() ==> is_hit(#[trigger] all[k], best, fts)
        }),
{
    let best = best_chunks(top_k, chunks);
    let all = candidates(top_k, chunks, fts);
    let keywords = keyword_results(best, fts);
    let semantic = semantic_results(best, fts);
    lemma_keyword_results(best, fts);
    lists::lemma_add_contains(semantic, keywords);
    assert forall|i: int| 0 <= i < best.len() implies i < all.len() && shows_chunk(
        all[i],
        #[trigger] best[i],
        fts,
    ) by {
        let c = best[i];
        assert(all[i] == chunk_result(c, fts));
        ranking::law_at_most(c.chunk.content@, 200);
        if exists|j: int| 0 <= j < fts.len() && (#[trigger] fts[j]).chunk_id == c.chunk.id {
            assert(keyword_hit(fts, c.chunk.id));
        }
        if forall|j: int| 0 <= j < fts.len() ==> (#[trigger] fts[j]).chunk_id != c.chunk.id {
            assert(!keyword_hit(fts, c.chunk.id));
        }
    }
    assert forall|i: int|
        0 <= i < fts.len() && (forall|j: int|
            0 <= j < best.len() ==> (#[trigger] best[j]).chunk.id
                != fts[i].chunk_id) implies #[trigger] shown_among(all, fts[i]) by {
        assert(!has_chunk(best, fts[i].chunk_id));
        let r = fts_result(fts[i]);
        assert(all.contains(r));
        let k = choose|k: int| 0 <= k < all.len() && all[k] == r;
        assert(shows_hit(all[k], fts[i]));
    }
    assert forall|k: int| best.len() <= k < all.len() implies is_hit(
        #[trigger] all[k],
        best,
        fts,
    ) by {
        assert(all[k] == keywords[k - best.len()]);
    }
}

/// Whether one of the results shows a keyword hit.
pub open spec fn shown_among(results: Seq<ResultModel>, f: FtsResult) -> bool {
    exists|k: int| 0 <= k < results.len() && shows_hit(#[trigger] results[k], f)
}

/// Whether the results account for a note that was found with a score: one of them
/// is of the note and has no smaller score; or as many as were asked for are given,
/// and none of them has a smaller score.
pub open spec fn accounts_for(
    r: Seq<ResultModel>,
    top_k: nat,
    path: Seq<char>,
    score: i64,
) -> bool {
    ||| exists|k: int| 0 <= k < r.len() && (#[trigger] r[k]).path == path && r[k].score >= score
    ||| r.len() == top_k && forall|k: int|
        0 <= k < r.len() ==> (#[trigger] r[k]).score >= score
}

proof fn lemma_accounts_for(
    top_k: nat,
    chunks: Seq<ScoredChunk>,
    fts: Seq<FtsResult>,
    n: int,
)
    requires
        0 <= n < candidates(top_k, chunks, fts).len(),
    ensures
        accounts_for(
            search_results(top_k, chunks, fts),
            top_k,
            candidates(top_k, chunks, fts)[n].path,
            candidates(top_k, chunks, fts)[n].score,
        ),
        search_results(top_k, chunks, fts).len() < top_k ==> has_path(
            search_results(top_k, chunks, fts),
            candidates(top_k, chunks, fts)[n].path,
        ),
{
    let all = candidates(top_k, chunks, fts);
    let keys = result_scores(all);
    let order = ranking::ranking(keys);
    let ranked = by_score(all);
    let found = first_per_path(ranked);
    let r = search_results(top_k, chunks, fts);
    let p = all[n].path;
    ranking::law_ranking(keys);
    assert(keys.len() == all.len());
    lemma_by_score(all);
    lemma_first_per_path(ranked);
    lemma_first_per_path_ranked(ranked);
    ranking::law_at_most(found, top_k);
    assert(order.contains(n));
    let m = choose|m: int| 0 <= m < order.len() && order[m] == n;
    assert(ranked[m] == all[n]);
    assert(has_path(ranked, p));
    assert(has_path(found, p));
    let k = choose|k: int| 0 <= k < found.len() && (#[trigger] found[k]).path == p;
    assert(first_of_note(ranked, found[k]));
    let f = choose|f: int| is_first(ranked, f) && ranked[f] == found[k];
    assert(f <= m) by {
        if m < f {
            assert(ranked[m].path != ranked[f].path);
        }
    }
    assert(ranked[f].score >= ranked[m].score);
    if k < r.len() {
        assert(r[k] == found[k]);
        assert(r[k].path == p);
    } else {
        assert forall|i: int| 0 <= i < r.len() implies (#[trigger] r[i]).score >= all[n].score by {
            assert(r[i] == found[i]);
            assert(found[i].score >= found[k].score);
        }
    }
}

/// What was found is given, as far as there is room: every one of the best chunks
/// and every keyword hit is accounted for, by a result of its note with a score that
/// is no smaller, or by as many results as were asked for with scores that are no
/// smaller. So where fewer results are given, none of the notes is missing.
pub proof fn law_nothing_found_is_lost(top_k: nat, chunks: Seq<ScoredChunk>, fts: Seq<FtsResult>)
    ensures
        ({
            let best = best_chunks(top_k, chunks);
            let r = search_results(top_k, chunks, fts);
            &&& forall|i: int|
                0 <= i < best.len() ==> accounts_for(
                    r,
                    top_k,
                    (#[trigger] best[i]).chunk.note_path@,
                    if exists|j: int|
                        0 <= j < fts.len() && (#[trigger] fts[j]).chunk_id == best[i].chunk.id {
                        best[i].boosted
                    } else {
                        best[i].shown
                    },
                )
            &&& forall|i: int|
                0 <= i < fts.len() && (forall|j: int|
                    0 <= j < best.len() ==> (#[trigger] best[j]).chunk.id != fts[i].chunk_id)
                    ==> accounts_for(r, top_k, (#[trigger] fts[i]).note_path@, 500)
            &&& r.len() < top_k ==> forall|i: int|
                0 <= i < best.len() ==> exists|k: int|
                    0 <= k < r.len() && (#[trigger] r[k]).path == (
                    #[trigger] best[i]).chunk.note_path@
            &&& r.len() < top_k ==> forall|i: int|
                0 <= i < fts.len() && (forall|j: int|
                    0 <= j < best.len() ==> (#[trigger] best[j]).chunk.id != fts[i].chunk_id)
                    ==> exists|k: int|
                    0 <= k < r.len() && (#[trigger] r[k]).path == (#[trigger] fts[i]).note_path@
        }),
{
    let best = best_chunks(top_k, chunks);
    let all = candidates(top_k, chunks, fts);
    let r = search_results(top_k, chunks, fts);
    law_candidates(top_k, chunks, fts);
    assert forall|i: int| 0 <= i < best.len() implies accounts_for(
        r,
        top_k,
        (#[trigger] best[i]).chunk.note_path@,
        if exists|j: int| 0 <= j < fts.len() && (#[trigger] fts[j]).chunk_id == best[i].chunk.id {
            best[i].boosted
        } else {
            best[i].shown
        },
    ) && (r.len() < top_k ==> has_path(r, best[i].chunk.note_path@)) by {
        assert(shows_chunk(all[i], best[i], fts));
        lemma_accounts_for(top_k, chunks, fts, i);
    }
    assert forall|i: int|
        0 <= i < fts.len() && (forall|j: int|
            0 <= j < best.len() ==> (#[trigger] best[j]).chunk.id
                != fts[i].chunk_id) implies accounts_for(
        r,
        top_k,
        (#[trigger] fts[i]).note_path@,
        500,
    ) && (r.len() < top_k ==> has_path(r, fts[i].note_path@)) by {
        assert(shown_among(all, fts[i]));
        let k = choose|k: int| 0 <= k < all.len() && shows_hit(#[trigger] all[k], fts[i]);
        lemma_accounts_for(top_k, chunks, fts, k);
    }
}

/// Nothing is made up: every result is one of the best chunks or a keyword hit, with
/// what that shows. No note is given twice, and no more results than were asked for.
pub proof fn law_results_were_found(top_k: nat, chunks: Seq<ScoredChunk>, fts: Seq<FtsResult>)
    ensures
        ({
            let best = best_chunks(top_k, chunks);
            let r = search_results(top_k, chunks, fts);
            &&& r.len() <= top_k
            &&& forall|i: int, j: int|
                0 <= i < j < r.len() ==> (#[trigger] r[i]).path != (#[trigger] r[j]).path
            &&& forall|k: int|
                0 <= k < r.len() ==> is_best(#[trigger] r[k], best, fts) || is_hit(r[k], best, fts)
        }),
{
    let best = best_chunks(top_k, chunks);
    let all = candidates(top_k, chunks, fts);
    let ranked = by_score(all);
    let keys = result_scores(all);
    let order = ranking::ranking(keys);
    let r = search_results(top_k, chunks, fts);
    law_search_results(top_k, chunks, fts);
    law_candidates(top_k, chunks, fts);
    ranking::law_ranking(keys);
    assert(keys.len() == all.len());
    assert forall|k: int| 0 <= k < r.len() implies is_best(#[trigger] r[k], best, fts) || is_hit(
        r[k],
        best,
        fts,
    ) by {
        assert(first_of_note(ranked, r[k]));
        let f = choose|f: int| is_first(ranked, f) && ranked[f] == r[k];
        assert(order.contains(order[f]));
        let n = order[f];
        assert(r[k] == all[n]);
        if n < best.len() {
            assert(shows_chunk(all[n], best[n], fts));
        } else {
            assert(is_hit(all[n], best, fts));
        }
    }
}

/// Where results have the same score, the one that was found first comes first: the
/// best chunks in their order, and behind them the keyword hits in theirs.
pub proof fn law_ties_in_the_order_found(
    top_k: nat,
    chunks: Seq<ScoredChunk>,
    fts: Seq<FtsResult>,
    i: int,
    j: int,
)
    requires
        0 <= i < j < search_results(top_k, chunks, fts).len(),
        search_results(top_k, chunks, fts)[i].score == search_results(top_k, chunks, fts)[j].score,
    ensures
        exists|x: int, y: int|
            {
                &&& 0 <= x < y < candidates(top_k, chunks, fts).len()
                &&& search_results(top_k, chunks, fts)[i] == #[trigger] candidates(
                    top_k,
                    chunks,
                    fts,
                )[x]
                &&& search_results(top_k, chunks, fts)[j] == #[trigger] candidates(
                    top_k,
                    chunks,
                    fts,
                )[y]
            },
{
    let all = candidates(top_k, chunks, fts);
    let ranked = by_score(all);
    let keys = result_scores(all);
    let order = ranking::ranking(keys);
    let found = first_per_path(ranked);
    let r = search_results(top_k, chunks, fts);
    ranking::law_ranking(keys);
    ranking::law_at_most(found, top_k);
    assert(keys.len() == all.len());
    let (a, b) = lemma_first_per_path_order(ranked, i, j);
    assert(r[i] == found[i] && r[j] == found[j]);
    assert(order.contains(order[a]) && order.contains(order[b]));
    let x = order[a];
    let y = order[b];
    assert(ranking::ranked_before(keys, x, y));
    assert(keys[x] == all[x].score && keys[y] == all[y].score);
    assert(r[i] == all[x] && r[j] == all[y]);
}

proof fn lemma_first_per_path_order(results: Seq<ResultModel>, i: int, j: int) -> (r: (int, int))
    requires
        0 <= i < j < first_per_path(results).len(),
    ensures
        0 <= r.0 < r.1 < results.len(),
        first_per_path(results)[i] == results[r.0],
        first_per_path(results)[j] == results[r.1],
    decreases results.len(),
{
    let before = results.drop_last();
    let a = first_per_path(before);
    if j < a.len() {
        let r = lemma_first_per_path_order(before, i, j);
        assert(before[r.0] == results[r.0] && before[r.1] == results[r.1]);
        r
    } else {
        lemma_first_per_path(before);
        assert(first_of_note(before, a[i]));
        let x = choose|x: int| is_first(before, x) && before[x] == a[i];
        assert(results[x] == before[x]);
        (x, results.len() - 1)
    }
}

/// Whether a note other than the one at `path` is what a result shows.
pub open spec fn shows_note(r: RelatedModel, n: ScoredNote, path: Seq<char>) -> bool {
    n.path@ != path && r.path == n.path@ && r.score == n.shown
}

/// Only the note asked about is left out: every other note is among the results, if
/// there is room for all; else no note that is missing is closer than one that is
/// given. Every result is one of the notes.
pub proof fn law_only_the_note_itself_left_out(
    path: Seq<char>,
    top_k: nat,
    notes: Seq<ScoredNote>,
    i: int,
)
    requires
        0 <= i < notes.len(),
        notes[i].path@ != path,
    ensures
        ({
            let r = closest(path, top_k, notes);
            &&& r.len() <= top_k
            &&& (exists|k: int| 0 <= k < r.len() && shows_note(#[trigger] r[k], notes[i], path)) || (
            r.len() == top_k && forall|k: int|
                0 <= k < r.len() ==> #[trigger] at_least_as_close(r[k], notes, path, notes[i]))
            &&& notes.len() <= top_k ==> exists|k: int|
                0 <= k < r.len() && shows_note(#[trigger] r[k], notes[i], path)
        }),
{
    let keep = is_other(path);
    let rest = others(notes, path);
    let keys = ranking::score_keys(note_scores(rest));
    let order = ranking::ranking(keys);
    let r = closest(path, top_k, notes);
    ranking::law_ranking(keys);
    ranking::law_at_most(order, top_k);
    assert(keys.len() == rest.len());
    notes.lemma_filter_contains(keep, i);
    notes.lemma_filter_len(keep);
    let m = choose|m: int| 0 <= m < rest.len() && rest[m] == notes[i];
    assert(order.contains(m));
    let k = choose|k: int| 0 <= k < order.len() && order[k] == m;
    assert forall|n: int| 0 <= n < order.len() implies 0 <= #[trigger] order[n] < rest.len() by {
        assert(order.contains(order[n]));
    }
    assert(r.len() == ranking::at_most(order, top_k).len());
    assert forall|n: int| 0 <= n < r.len() implies (#[trigger] r[n]).path == rest[order[n]].path@
        && r[n].score == rest[order[n]].shown by {
        assert(ranking::at_most(order, top_k)[n] == order[n]);
    }
    if k < r.len() {
        assert(shows_note(r[k], notes[i], path));
    } else {
        assert forall|n: int| 0 <= n < r.len() implies #[trigger] at_least_as_close(
            r[n],
            notes,
            path,
            notes[i],
        ) by {
            let x = order[n];
            notes.lemma_filter_pred(keep, x);
            lemma_filter_member(notes, keep, x);
            let j = choose|j: int| 0 <= j < notes.len() && notes[j] == rest[x];
            assert(ranking::ranked_before(keys, order[n], order[k]));
            assert(keys[x] == ranking::score_key(rest[x].score)) by {
                assert(note_scores(rest)[x] == rest[x].score);
            }
            assert(keys[m] == ranking::score_key(rest[m].score)) by {
                assert(note_scores(rest)[m] == rest[m].score);
            }
            assert(shows_note(r[n], notes[j], path));
        }
    }
}

/// Whether a result shows one of the notes that is at least as close as another.
pub open spec fn at_least_as_close(
    r: RelatedModel,
    notes: Seq<ScoredNote>,
    path: Seq<char>,
    n: ScoredNote,
) -> bool {
    exists|j: int|
        0 <= j < notes.len() && shows_note(r, #[trigger] notes[j], path) && ranking::score_key(
            notes[j].score,
        ) >= ranking::score_key(n.score)
}

/// The notes come closest first, and each is one of the notes other than the one
/// asked about; of two that are as close as each other, the one that stands first
/// comes first.
pub proof fn law_related_notes_ranked(
    path: Seq<char>,
    top_k: nat,
    notes: Seq<ScoredNote>,
    i: int,
    j: int,
)
    requires
        0 <= i < j < closest(path, top_k, notes).len(),
    ensures
        exists|x: int, y: int|
            {
                let r = closest(path, top_k, notes);
                &&& 0 <= x < notes.len() && 0 <= y < notes.len() && x != y
                &&& shows_note(r[i], #[trigger] notes[x], path)
                &&& shows_note(r[j], #[trigger] notes[y], path)
                &&& ranking::score_key(notes[x].score) >= ranking::score_key(notes[y].score)
                &&& ranking::score_key(notes[x].score) == ranking::score_key(notes[y].score) ==> x
                    < y
            },
{
    let keep = is_other(path);
    let rest = others(notes, path);
    let keys = ranking::score_keys(note_scores(rest));
    let order = ranking::ranking(keys);
    let r = closest(path, top_k, notes);
    ranking::law_ranking(keys);
    ranking::law_at_most(order, top_k);
    assert(keys.len() == rest.len());
    assert(r.len() == ranking::at_most(order, top_k).len());
    ranking::law_ranking_order(keys, i, j);
    let a = order[i];
    let b = order[j];
    assert(r[i].path == rest[a].path@ && r[i].score == rest[a].shown) by {
        assert(ranking::at_most(order, top_k)[i] == order[i]);
    }
    assert(r[j].path == rest[b].path@ && r[j].score == rest[b].shown) by {
        assert(ranking::at_most(order, top_k)[j] == order[j]);
    }
    notes.lemma_filter_pred(keep, a);
    notes.lemma_filter_pred(keep, b);
    assert(keys[a] == ranking::score_key(rest[a].score)) by {
        assert(note_scores(rest)[a] == rest[a].score);
    }
    assert(keys[b] == ranking::score_key(rest[b].score)) by {
        assert(note_scores(rest)[b] == rest[b].score);
    }
    let at = lemma_filter_places(notes, keep);
    let x = at[a];
    let y = at[b];
    assert(rest[a] == notes[x] && rest[b] == notes[y]);
    assert(shows_note(r[i], notes[x], path));
    assert(shows_note(r[j], notes[y], path));
}

proof fn lemma_filter_places(notes: Seq<ScoredNote>, keep: spec_fn(ScoredNote) -> bool) -> (at: Seq<
    int,
>)
    ensures
        at.len() == notes.filter(keep).len(),
        forall|i: int|
            0 <= i < at.len() ==> 0 <= #[trigger] at[i] < notes.len() && notes[at[i]]
                == notes.filter(keep)[i],
        forall|i: int, j: int| 0 <= i < j < at.len() ==> #[trigger] at[i] < #[trigger] at[j],
    decreases notes.len(),
{
    reveal(Seq::filter);
    if notes.len() == 0 {
        seq![]
    } else {
        let before = notes.drop_last();
        let had = lemma_filter_places(before, keep);
        if keep(notes.last()) {
            let at = had.push(notes.len() - 1);
            assert forall|i: int| 0 <= i < at.len() implies 0 <= #[trigger] at[i] < notes.len()
                && notes[at[i]] == notes.filter(keep)[i] by {
                if i < had.len() {
                    assert(at[i] == had[i]);
                    assert(before[had[i]] == notes[had[i]]);
                }
            }
            assert forall|i: int, j: int| 0 <= i < j < at.len() implies #[trigger] at[i]
                < #[trigger] at[j] by {
                assert(at[i] == had[i]);
                if j < had.len() {
                    assert(at[j] == had[j]);
                }
            }
            at
        } else {
            assert forall|i: int| 0 <= i < had.len() implies 0 <= #[trigger] had[i] < notes.len()
                && notes[had[i]] == notes.filter(keep)[i] by {
                assert(before[had[i]] == notes[had[i]]);
            }
            had
        }
    }
}

/// A walk goes one link far if it is not told otherwise, and never more than five.
pub proof fn law_hops(d: u64)
    ensures
        hops(None) == 1,
        d <= 5 ==> hops(Some(d)) == d,
        5 < d <= usize::MAX ==> hops(Some(d)) == 5,
        hops(Some(d)) <= 5,
{
}

/// Whether `at` are the places of the best chunks: each is ranked before those that
/// follow it and before all that are left out, by a greater score, or by the same one
/// and an earlier place.
pub open spec fn best_places_are(
    top_k: nat,
    chunks: Seq<ScoredChunk>,
    best: Seq<ScoredChunk>,
    at: Seq<int>,
) -> bool {
    &&& at.len() == best.len()
    &&& forall|i: int|
        0 <= i < at.len() ==> 0 <= #[trigger] at[i] < chunks.len() && best[i] == chunks[at[i]]
    &&& forall|i: int, j: int|
        0 <= i < j < at.len() ==> is_better(chunks, #[trigger] at[i], #[trigger] at[j])
    &&& forall|i: int, n: int|
        0 <= i < at.len() && 0 <= n < chunks.len() && !at.contains(n) ==> #[trigger] is_better(
            chunks,
            at[i],
            n,
        )
}

/// Whether the chunk at `x` has a greater score than the one at `y`, or the same one
/// and stands first.
pub open spec fn is_better(chunks: Seq<ScoredChunk>, x: int, y: int) -> bool {
    let a = ranking::score_key(chunks[x].score);
    let b = ranking::score_key(chunks[y].score);
    a > b || (a == b && x < y)
}

/// The best chunks come best first; of chunks with the same score the one that stands
/// first comes first, and is taken first.
pub proof fn law_best_chunks_ranked(top_k: nat, chunks: Seq<ScoredChunk>)
    ensures
        exists|at: Seq<int>| #[trigger]
            best_places_are(top_k, chunks, best_chunks(top_k, chunks), at),
{
    let best = best_chunks(top_k, chunks);
    let keys = ranking::score_keys(chunk_scores(chunks));
    let order = ranking::ranking(keys);
    let at = ranking::at_most(order, 2 * top_k);
    ranking::law_ranking(keys);
    ranking::law_at_most(order, 2 * top_k);
    assert(keys.len() == chunks.len());
    assert forall|n: int| 0 <= n < chunks.len() implies #[trigger] keys[n] == ranking::score_key(
        chunks[n].score,
    ) by {
        assert(chunk_scores(chunks)[n] == chunks[n].score);
    }
    assert forall|i: int| 0 <= i < order.len() implies 0 <= #[trigger] order[i] < chunks.len() by {
        assert(order.contains(order[i]));
    }
    assert forall|i: int, j: int| 0 <= i < j < order.len() implies is_better(
        chunks,
        #[trigger] order[i],
        #[trigger] order[j],
    ) by {
        assert(ranking::ranked_before(keys, order[i], order[j]));
        assert(keys[order[i]] == ranking::score_key(chunks[order[i]].score));
        assert(keys[order[j]] == ranking::score_key(chunks[order[j]].score));
    }
    assert forall|i: int| 0 <= i < at.len() implies 0 <= #[trigger] at[i] < chunks.len() && best[i]
        == chunks[at[i]] by {
        assert(at[i] == order[i]);
    }
    assert forall|i: int, j: int| 0 <= i < j < at.len() implies is_better(
        chunks,
        #[trigger] at[i],
        #[trigger] at[j],
    ) by {
        assert(is_better(chunks, order[i], order[j]));
    }
    assert forall|i: int, n: int|
        0 <= i < at.len() && 0 <= n < chunks.len() && !at.contains(n) implies #[trigger] is_better(
        chunks,
        at[i],
        n,
    ) by {
        assert(order.contains(n));
        let k = choose|k: int| 0 <= k < order.len() && order[k] == n;
        if k < at.len() {
            assert(at[k] == n);
        }
        assert(is_better(chunks, order[i], order[k]));
    }
    assert(best_places_are(top_k, chunks, best, at));
}

/// One keyword hit more: it comes behind the others, unless its chunk is among the
/// best. The keyword hits are the candidates behind the best chunks.
pub proof fn law_one_more_hit(
    top_k: nat,
    chunks: Seq<ScoredChunk>,
    best: Seq<ScoredChunk>,
    fts: Seq<FtsResult>,
    f: FtsResult,
)
    ensures
        keyword_results(best, Seq::<FtsResult>::empty()).len() == 0,
        (exists|i: int| 0 <= i < best.len() && (#[trigger] best[i]).chunk.id == f.chunk_id)
            ==> keyword_results(best, fts.push(f)) == keyword_results(best, fts),
        (forall|i: int| 0 <= i < best.len() ==> (#[trigger] best[i]).chunk.id != f.chunk_id) ==> {
            let a = keyword_results(best, fts);
            let b = keyword_results(best, fts.push(f));
            &&& b.len() == a.len() + 1
            &&& b.drop_last() == a
            &&& shows_hit(b.last(), f)
        },
        candidates(top_k, chunks, fts).skip(best_chunks(top_k, chunks).len() as int)
            == keyword_results(best_chunks(top_k, chunks), fts),
{
    assert(fts.push(f).drop_last() =~= fts);
    let a = keyword_results(best, fts);
    assert(a.push(fts_result(f)).drop_last() =~= a);
    let own = best_chunks(top_k, chunks);
    assert(candidates(top_k, chunks, fts).skip(own.len() as int) =~= keyword_results(own, fts));
}

} // verus!
