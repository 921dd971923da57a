//! Cleora-style graph embeddings derived from the link structure: which notes
//! take part, and which are neighbors.
//!
//! 1. Each note starts with a unit vector that is seeded by the hash of its path.
//! 2. For each note, the vectors of its neighbors, in either direction and by the
//!    weight of the link, and its own are averaged and normalized.
//! 3. This is done [`N_ITERS`] times.
//! 4. The vectors of notes with neighbors are kept, and no others.
use vstd::hash_map::StringHashMap;
use vstd::prelude::*;

use crate::lists;

verus! {

/// How long the vectors are.
pub const DIM: usize = 128;

/// How often the vectors are averaged.
pub const N_ITERS: usize = 3;

/// A link of the graph.
#[derive(Debug, Clone)]
pub struct Link {
    pub source: String,
    pub target: String,
    /// Bits of the `f32` weight.
    pub weight: u32,
}

/// What a [`Link`] holds.
pub struct LinkModel {
    pub source: Seq<char>,
    pub target: Seq<char>,
    pub weight: u32,
}

impl DeepView for Link {
    type V = LinkModel;

    open spec fn deep_view(&self) -> LinkModel {
        LinkModel { source: self.source@, target: self.target@, weight: self.weight }
    }
}

/// The place of a note, the last one if there are several.
pub open spec fn place_of(notes: Seq<Seq<char>>, path: Seq<char>) -> Option<int>
    decreases notes.len(),
{
    if notes.len() == 0 {
        None
    } else if notes.last() == path {
        Some(notes.len() - 1)
    } else {
        place_of(notes.drop_last(), path)
    }
}

/// The places and weights of the notes that the links lead to from note `i`.
/// Links from or to something that is not a note do not count.
pub open spec fn out_neighbors(
    notes: Seq<Seq<char>>,
    links: Seq<LinkModel>,
    i: int,
) -> Seq<(int, u32)>
    decreases links.len(),
{
    if links.len() == 0 {
        seq![]
    } else {
        let before = out_neighbors(notes, links.drop_last(), i);
        let l = links.last();
        match (place_of(notes, l.source), place_of(notes, l.target)) {
            (Some(s), Some(t)) => if s == i {
                before.push((t, l.weight))
            } else {
                before
            },
            _ => before,
        }
    }
}

/// The places and weights of the notes from which links lead to note `i`.
pub open spec fn in_neighbors(
    notes: Seq<Seq<char>>,
    links: Seq<LinkModel>,
    i: int,
) -> Seq<(int, u32)>
    decreases links.len(),
{
    if links.len() == 0 {
        seq![]
    } else {
        let before = in_neighbors(notes, links.drop_last(), i);
        let l = links.last();
        match (place_of(notes, l.source), place_of(notes, l.target)) {
            (Some(s), Some(t)) => if t == i {
                before.push((s, l.weight))
            } else {
                before
            },
            _ => before,
        }
    }
}

/// The neighbors of note `i`: those it links to, then those that link to it.
pub open spec fn neighbors_of(
    notes: Seq<Seq<char>>,
    links: Seq<LinkModel>,
    i: int,
) -> Seq<(int, u32)> {
    out_neighbors(notes, links, i) + in_neighbors(notes, links, i)
}

/// Places as numbers.
pub open spec fn numbered(v: Seq<(usize, u32)>) -> Seq<(int, u32)> {
    v.map_values(|n: (usize, u32)| (n.0 as int, n.1))
}

/// Whether a map gives the place of a note.
spec fn lists_place(places: Map<Seq<char>, usize>, notes: Seq<Seq<char>>, p: Seq<char>) -> bool {
    match place_of(notes, p) {
        Some(i) => places.contains_key(p) && places[p] == i,
        None => !places.contains_key(p),
    }
}

proof fn lemma_place_of(notes: Seq<Seq<char>>, path: Seq<char>)
    ensures
        match place_of(notes, path) {
            Some(i) => 0 <= i < notes.len() && notes[i] == path,
            None => !notes.contains(path),
        },
    decreases notes.len(),
{
    if notes.len() > 0 {
        let before = notes.drop_last();
        lemma_place_of(before, path);
        lists::lemma_last_contains(notes);
    }
}

/// The place of each note.
fn places_of(notes: &Vec<String>) -> (r: StringHashMap<usize>)
    ensures
        forall|p: Seq<char>| #[trigger] lists_place(r@, notes.deep_view(), p),
{
    let ghost all = notes.deep_view();
    let mut places: StringHashMap<usize> = StringHashMap::new();
    let mut i: usize = 0;
    while i < notes.len()
        invariant
            i <= notes@.len(),
            all == notes.deep_view(),
            forall|p: Seq<char>| #[trigger] lists_place(places@, all.take(i as int), p),
        decreases notes@.len() - i,
    {
        let ghost had = places@;
        places.insert(notes[i].clone(), i);
        proof {
            assert(all.take(i + 1).drop_last() =~= all.take(i as int));
            assert(all.take(i + 1).last() == notes@[i as int]@);
            assert forall|p: Seq<char>| #[trigger] lists_place(places@, all.take(i + 1), p) by {
                assert(lists_place(had, all.take(i as int), p));
            }
        }
        i = i + 1;
    }
    assert(all.take(i as int) =~= all);
    places
}

/// One empty list for each note.
fn empty_lists(n: usize) -> (r: Vec<Vec<(usize, u32)>>)
    ensures
        r@.len() == n,
        forall|i: int| 0 <= i < n ==> (#[trigger] r@[i])@.len() == 0,
{
    let mut r: Vec<Vec<(usize, u32)>> = Vec::new();
    let mut i: usize = 0;
    while i < n
        invariant
            i <= n,
            r@.len() == i,
            forall|j: int| 0 <= j < i ==> (#[trigger] r@[j])@.len() == 0,
        decreases n - i,
    {
        r.push(Vec::new());
        i = i + 1;
    }
    r
}

/// The neighbors of each note, with the weights of the links: those it links to,
/// then those that link to it.
pub fn neighbors(notes: &Vec<String>, links: &Vec<Link>) -> (r: Vec<Vec<(usize, u32)>>)
    ensures
        r@.len() == notes@.len(),
        forall|i: int|
            0 <= i < r@.len() ==> numbered((#[trigger] r@[i])@) == neighbors_of(
                notes.deep_view(),
                links.deep_view(),
                i,
            ),
{
    let places = places_of(notes);
    let ghost all = notes.deep_view();
    let ghost edges = links.deep_view();
    let n: usize = notes.len();
    let mut out = empty_lists(n);
    let mut inn = empty_lists(n);
    let mut k: usize = 0;
    proof {
        assert forall|i: int| 0 <= i < n implies numbered((#[trigger] out@[i])@) == out_neighbors(
            all,
            edges.take(0),
            i,
        ) by {
            assert(numbered(out@[i]@) =~= seq![]);
        }
        assert forall|i: int| 0 <= i < n implies numbered((#[trigger] inn@[i])@) == in_neighbors(
            all,
            edges.take(0),
            i,
        ) by {
            assert(numbered(inn@[i]@) =~= seq![]);
        }
    }
    while k < links.len()
        invariant
            k <= links@.len(),
            all == notes.deep_view(),
            edges == links.deep_view(),
            n == all.len(),
            out@.len() == n,
            inn@.len() == n,
            forall|p: Seq<char>| #[trigger] lists_place(places@, all, p),
            forall|i: int|
                0 <= i < n ==> numbered((#[trigger] out@[i])@) == out_neighbors(
                    all,
                    edges.take(k as int),
                    i,
                ),
            forall|i: int|
                0 <= i < n ==> numbered((#[trigger] inn@[i])@) == in_neighbors(
                    all,
                    edges.take(k as int),
                    i,
                ),
        decreases links@.len() - k,
    {
        let l = &links[k];
        let ghost had_out = out@;
        let ghost had_in = inn@;
        proof {
            assert(edges.take(k + 1).drop_last() =~= edges.take(k as int));
            assert(edges.take(k + 1).last() == l.deep_view());
            assert(lists_place(places@, all, l.source@));
            assert(lists_place(places@, all, l.target@));
            lemma_place_of(all, l.source@);
            lemma_place_of(all, l.target@);
        }
        if let Some(s) = places.get(l.source.as_str()) {
            if let Some(t) = places.get(l.target.as_str()) {
                let s: usize = *s;
                let t: usize = *t;
                push_to(&mut out, s, (t, l.weight));
                push_to(&mut inn, t, (s, l.weight));
                proof {
                    assert forall|i: int| 0 <= i < n implies numbered((#[trigger] out@[i])@)
                        == out_neighbors(all, edges.take(k + 1), i) by {
                        assert(numbered(had_out[i]@) == out_neighbors(
                            all,
                            edges.take(k as int),
                            i,
                        ));
                        if i == s {
                            assert(numbered(out@[i]@) =~= numbered(had_out[i]@).push(
                                (t as int, l.weight),
                            ));
                        }
                    }
                    assert forall|i: int| 0 <= i < n implies numbered((#[trigger] inn@[i])@)
                        == in_neighbors(all, edges.take(k + 1), i) by {
                        assert(numbered(had_in[i]@) == in_neighbors(
                            all,
                            edges.take(k as int),
                            i,
                        ));
                        if i == t {
                            assert(numbered(inn@[i]@) =~= numbered(had_in[i]@).push(
                                (s as int, l.weight),
                            ));
                        }
                    }
                }
            }
        }
        k = k + 1;
    }
    assert(edges.take(k as int) =~= edges);
    let mut r: Vec<Vec<(usize, u32)>> = Vec::new();
    let mut i: usize = 0;
    while i < n
        invariant
            i <= n,
            n == all.len(),
            out@.len() == n,
            inn@.len() == n,
            r@.len() == i,
            forall|j: int|
                0 <= j < n ==> numbered((#[trigger] out@[j])@) == out_neighbors(all, edges, j),
            forall|j: int|
                0 <= j < n ==> numbered((#[trigger] inn@[j])@) == in_neighbors(all, edges, j),
            forall|j: int|
                0 <= j < i ==> numbered((#[trigger] r@[j])@) == neighbors_of(all, edges, j),
        decreases n - i,
    {
        let both = joined(&out[i], &inn[i]);
        assert(numbered(both@) =~= numbered(out@[i as int]@) + numbered(inn@[i as int]@));
        r.push(both);
        i = i + 1;
    }
    r
}

/// Those of the first `k` notes that have neighbors, in their order.
pub open spec fn with_neighbors(notes: Seq<Seq<char>>, links: Seq<LinkModel>, k: nat) -> Seq<
    Seq<char>,
>
    decreases k,
{
    if k == 0 {
        seq![]
    } else {
        let before = with_neighbors(notes, links, (k - 1) as nat);
        if neighbors_of(notes, links, k - 1).len() > 0 {
            before.push(notes[k - 1])
        } else {
            before
        }
    }
}

/// The notes whose vectors are kept: those that have neighbors, in their order.
pub fn kept_notes(notes: &Vec<String>, links: &Vec<Link>) -> (r: Vec<String>)
    ensures
        r.deep_view() == with_neighbors(notes.deep_view(), links.deep_view(), notes@.len()),
{
    let lists = neighbors(notes, links);
    let ghost all = notes.deep_view();
    let ghost edges = links.deep_view();
    let mut r: Vec<String> = Vec::new();
    let mut i: usize = 0;
    assert(r.deep_view() =~= with_neighbors(all, edges, 0));
    while i < notes.len()
        invariant
            i <= notes@.len(),
            all == notes.deep_view(),
            lists@.len() == notes@.len(),
            forall|j: int|
                0 <= j < lists@.len() ==> numbered((#[trigger] lists@[j])@) == neighbors_of(
                    all,
                    edges,
                    j,
                ),
            r.deep_view() == with_neighbors(all, edges, i as nat),
        decreases notes@.len() - i,
    {
        assert(numbered(lists@[i as int]@).len() == lists@[i as int]@.len());
        if lists[i].len() > 0 {
            let ghost had = r.deep_view();
            let note = notes[i].clone();
            r.push(note);
            assert(r.deep_view() =~= had.push(all[i as int]));
        }
        i = i + 1;
    }
    r
}

/// Adds an item to one of the lists.
fn push_to(lists: &mut Vec<Vec<(usize, u32)>>, i: usize, item: (usize, u32))
    requires
        i < old(lists)@.len(),
    ensures
        final(lists)@.len() == old(lists)@.len(),
        final(lists)@[i as int]@ == old(lists)@[i as int]@.push(item),
        forall|j: int|
            0 <= j < old(lists)@.len() && j != i ==> #[trigger] final(lists)@[j] == old(lists)@[j],
{
    let mut list: Vec<(usize, u32)> = Vec::new();
    lists.set_and_swap(i, &mut list);
    list.push(item);
    lists.set_and_swap(i, &mut list);
}

/// The items of both lists.
fn joined(a: &Vec<(usize, u32)>, b: &Vec<(usize, u32)>) -> (r: Vec<(usize, u32)>)
    ensures
        r@ == a@ + b@,
{
    let mut r: Vec<(usize, u32)> = Vec::new();
    let mut i: usize = 0;
    while i < a.len()
        invariant
            i <= a@.len(),
            r@ =~= a@.take(i as int),
        decreases a@.len() - i,
    {
        r.push(a[i]);
        i = i + 1;
    }
    let mut j: usize = 0;
    while j < b.len()
        invariant
            j <= b@.len(),
            r@ =~= a@ + b@.take(j as int),
        decreases b@.len() - j,
    {
        r.push(b[j]);
        j = j + 1;
    }
    r
}

// ── laws ─────────────────────────────────────────────────────────────────────

/// Whether a link joins the notes at two places.
pub open spec fn joins(notes: Seq<Seq<char>>, l: LinkModel, s: int, t: int) -> bool {
    place_of(notes, l.source) == Some(s) && place_of(notes, l.target) == Some(t)
}

proof fn lemma_out(notes: Seq<Seq<char>>, links: Seq<LinkModel>, s: int, t: int, w: u32)
    ensures
        out_neighbors(notes, links, s).contains((t, w)) <==> exists|k: int|
            0 <= k < links.len() && #[trigger] joins(notes, links[k], s, t) && links[k].weight == w,
        in_neighbors(notes, links, t).contains((s, w)) <==> exists|k: int|
            0 <= k < links.len() && #[trigger] joins(notes, links[k], s, t) && links[k].weight == w,
    decreases links.len(),
{
    if links.len() > 0 {
        let before = links.drop_last();
        let l = links.last();
        lemma_out(notes, before, s, t, w);
        let a = out_neighbors(notes, before, s);
        let b = out_neighbors(notes, links, s);
        let c = in_neighbors(notes, before, t);
        let d = in_neighbors(notes, links, t);
        let here = joins(notes, l, s, t) && l.weight == w;
        assert((exists|k: int|
            0 <= k < links.len() && #[trigger] joins(notes, links[k], s, t) && links[k].weight == w)
            <==> here || (exists|k: int|
            0 <= k < before.len() && #[trigger] joins(notes, before[k], s, t) && before[k].weight
                == w)) by {
            if exists|k: int|
                0 <= k < before.len() && #[trigger] joins(notes, before[k], s, t)
                    && before[k].weight == w {
                let k = choose|k: int|
                    0 <= k < before.len() && #[trigger] joins(notes, before[k], s, t)
                        && before[k].weight == w;
                assert(links[k] == before[k]);
                assert(joins(notes, links[k], s, t));
            }
            if here {
                assert(joins(notes, links[links.len() - 1], s, t));
            }
            if exists|k: int|
                0 <= k < links.len() && #[trigger] joins(notes, links[k], s, t) && links[k].weight
                    == w {
                let k = choose|k: int|
                    0 <= k < links.len() && #[trigger] joins(notes, links[k], s, t)
                        && links[k].weight == w;
                if k < before.len() {
                    assert(joins(notes, before[k], s, t));
                }
            }
        }
        if let (Some(x), Some(y)) = (place_of(notes, l.source), place_of(notes, l.target)) {
            lists::lemma_push_contains(a, (y, l.weight));
            lists::lemma_push_contains(c, (x, l.weight));
        }
    }
}

/// Being neighbors is mutual: a note has another among its neighbors, over a link
/// of some weight, exactly if the other has it.
pub proof fn law_neighbors_mutual(
    notes: Seq<Seq<char>>,
    links: Seq<LinkModel>,
    i: int,
    j: int,
    w: u32,
)
    ensures
        neighbors_of(notes, links, i).contains((j, w)) <==> neighbors_of(
            notes,
            links,
            j,
        ).contains((i, w)),
{
    lemma_out(notes, links, i, j, w);
    lemma_out(notes, links, j, i, w);
    lists::lemma_add_contains(out_neighbors(notes, links, i), in_neighbors(notes, links, i));
    lists::lemma_add_contains(out_neighbors(notes, links, j), in_neighbors(notes, links, j));
}

/// Whether a link leads from a note to a note, and `path` is one of the two.
pub open spec fn ties(notes: Seq<Seq<char>>, l: LinkModel, path: Seq<char>) -> bool {
    notes.contains(l.source) && notes.contains(l.target) && (l.source == path || l.target == path)
}

/// Whether one of the links does.
pub open spec fn is_tied(notes: Seq<Seq<char>>, links: Seq<LinkModel>, path: Seq<char>) -> bool {
    exists|k: int| 0 <= k < links.len() && #[trigger] ties(notes, links[k], path)
}

proof fn lemma_neighbors_tie(notes: Seq<Seq<char>>, links: Seq<LinkModel>, i: int)
    requires
        0 <= i < notes.len(),
    ensures
        neighbors_of(notes, links, i).len() > 0 ==> is_tied(notes, links, notes[i]),
        place_of(notes, notes[i]) == Some(i) && is_tied(notes, links, notes[i]) ==> neighbors_of(
            notes,
            links,
            i,
        ).len() > 0,
    decreases links.len(),
{
    if links.len() > 0 {
        let before = links.drop_last();
        let l = links.last();
        lemma_neighbors_tie(notes, before, i);
        lemma_place_of(notes, l.source);
        lemma_place_of(notes, l.target);
        if is_tied(notes, before, notes[i]) {
            let k = choose|k: int| 0 <= k < before.len() && #[trigger] ties(
                notes,
                before[k],
                notes[i],
            );
            assert(ties(notes, links[k], notes[i]));
        }
        if neighbors_of(notes, links, i).len() > 0 && neighbors_of(notes, before, i).len() == 0 {
            assert(ties(notes, links[links.len() - 1], notes[i]));
        }
        if is_tied(notes, links, notes[i]) && !ties(notes, l, notes[i]) {
            let k = choose|k: int| 0 <= k < links.len() && #[trigger] ties(
                notes,
                links[k],
                notes[i],
            );
            assert(ties(notes, before[k], notes[i]));
        }
    }
}

proof fn lemma_with_neighbors(
    notes: Seq<Seq<char>>,
    links: Seq<LinkModel>,
    k: nat,
    path: Seq<char>,
)
    requires
        k <= notes.len(),
    ensures
        with_neighbors(notes, links, k).contains(path) <==> exists|i: int|
            0 <= i < k && #[trigger] notes[i] == path && neighbors_of(notes, links, i).len() > 0,
    decreases k,
{
    if k > 0 {
        lemma_with_neighbors(notes, links, (k - 1) as nat, path);
        lists::lemma_push_contains(with_neighbors(notes, links, (k - 1) as nat), notes[k - 1]);
    }
}

/// The vector of a note is kept exactly if a link joins the note with a note: one
/// whose links all lead to or from something that is no note has no vector.
pub proof fn law_kept_notes(notes: Seq<Seq<char>>, links: Seq<LinkModel>, path: Seq<char>)
    ensures
        with_neighbors(notes, links, notes.len()).contains(path) <==> is_tied(notes, links, path),
{
    lemma_with_neighbors(notes, links, notes.len(), path);
    if with_neighbors(notes, links, notes.len()).contains(path) {
        let i = choose|i: int|
            0 <= i < notes.len() && #[trigger] notes[i] == path && neighbors_of(notes, links, i).len()
                > 0;
        lemma_neighbors_tie(notes, links, i);
    }
    if is_tied(notes, links, path) {
        lemma_place_of(notes, path);
        let i = place_of(notes, path)->0;
        lemma_neighbors_tie(notes, links, i);
        assert(notes[i] == path);
    }
}

/// Whether no note is listed twice.
pub open spec fn listed_once(notes: Seq<Seq<char>>) -> bool {
    forall|i: int, j: int| 0 <= i < j < notes.len() ==> #[trigger] notes[i] != #[trigger] notes[j]
}

/// The neighbors of a note are the notes that a link joins it with, in either
/// direction, with the weight of the link.
pub proof fn law_neighbors(
    notes: Seq<Seq<char>>,
    links: Seq<LinkModel>,
    i: int,
    j: int,
    w: u32,
)
    requires
        listed_once(notes),
        0 <= i < notes.len(),
        0 <= j < notes.len(),
    ensures
        neighbors_of(notes, links, i).contains((j, w)) <==> exists|k: int|
            0 <= k < links.len() && (#[trigger] links[k]).weight == w && ((links[k].source == notes[i]
                && links[k].target == notes[j]) || (links[k].source == notes[j] && links[k].target
                == notes[i])),
{
    lemma_out(notes, links, i, j, w);
    lemma_out(notes, links, j, i, w);
    lists::lemma_add_contains(out_neighbors(notes, links, i), in_neighbors(notes, links, i));
    assert forall|k: int| 0 <= k < links.len() implies (#[trigger] joins(notes, links[k], i, j)
        <==> links[k].source == notes[i] && links[k].target == notes[j]) by {
        lemma_place_of(notes, links[k].source);
        lemma_place_of(notes, links[k].target);
        lemma_place_of_listed(notes, i);
        lemma_place_of_listed(notes, j);
    }
    assert forall|k: int| 0 <= k < links.len() implies (#[trigger] joins(notes, links[k], j, i)
        <==> links[k].source == notes[j] && links[k].target == notes[i]) by {
        lemma_place_of(notes, links[k].source);
        lemma_place_of(notes, links[k].target);
        lemma_place_of_listed(notes, i);
        lemma_place_of_listed(notes, j);
    }
    if neighbors_of(notes, links, i).contains((j, w)) {
        if out_neighbors(notes, links, i).contains((j, w)) {
            let k = choose|k: int|
                0 <= k < links.len() && #[trigger] joins(notes, links[k], i, j) && links[k].weight
                    == w;
            assert(links[k].weight == w);
        } else {
            let k = choose|k: int|
                0 <= k < links.len() && #[trigger] joins(notes, links[k], j, i) && links[k].weight
                    == w;
            assert(links[k].weight == w);
        }
    }
    if exists|k: int|
        0 <= k < links.len() && (#[trigger] links[k]).weight == w && ((links[k].source == notes[i]
            && links[k].target == notes[j]) || (links[k].source == notes[j] && links[k].target
            == notes[i])) {
        let k = choose|k: int|
            0 <= k < links.len() && (#[trigger] links[k]).weight == w && ((links[k].source
                == notes[i] && links[k].target == notes[j]) || (links[k].source == notes[j]
                && links[k].target == notes[i]));
        if links[k].source == notes[i] && links[k].target == notes[j] {
            assert(joins(notes, links[k], i, j));
        } else {
            assert(joins(notes, links[k], j, i));
        }
    }
}

proof fn lemma_place_of_listed(notes: Seq<Seq<char>>, i: int)
    requires
        listed_once(notes),
        0 <= i < notes.len(),
    ensures
        place_of(notes, notes[i]) == Some(i),
{
    lemma_place_of(notes, notes[i]);
    assert(notes.contains(notes[i]));
    let p = place_of(notes, notes[i])->0;
    if p < i {
        assert(notes[p] != notes[i]);
    }
    if i < p {
        assert(notes[i] != notes[p]);
    }
}

/// Every link between notes counts: it adds a neighbor to the note that it comes
/// from and one to the note that it leads to. A link from or to something else adds
/// none.
pub proof fn law_one_more_link(
    notes: Seq<Seq<char>>,
    links: Seq<LinkModel>,
    l: LinkModel,
    i: int,
)
    requires
        listed_once(notes),
        0 <= i < notes.len(),
    ensures
        neighbors_of(notes, Seq::<LinkModel>::empty(), i).len() == 0,
        neighbors_of(notes, links.push(l), i).len() == neighbors_of(notes, links, i).len() + (
        if notes.contains(l.source) && notes.contains(l.target) && l.source == notes[i] {
            1int
        } else {
            0
        }) + (if notes.contains(l.source) && notes.contains(l.target) && l.target == notes[i] {
            1int
        } else {
            0
        }),
{
    assert(links.push(l).drop_last() =~= links);
    lemma_place_of(notes, l.source);
    lemma_place_of(notes, l.target);
    lemma_place_of_listed(notes, i);
    if place_of(notes, l.source) is Some {
        assert(notes.contains(notes[place_of(notes, l.source)->0]));
    }
    if place_of(notes, l.target) is Some {
        assert(notes.contains(notes[place_of(notes, l.target)->0]));
    }
}

/// The notes whose vectors are kept stay in their order: each comes behind those
/// before it, if it has neighbors.
pub proof fn law_kept_in_order(notes: Seq<Seq<char>>, links: Seq<LinkModel>, k: nat)
    requires
        k < notes.len(),
    ensures
        with_neighbors(notes, links, 0).len() == 0,
        with_neighbors(notes, links, k + 1) == if neighbors_of(notes, links, k as int).len() > 0 {
            with_neighbors(notes, links, k).push(notes[k as int])
        } else {
            with_neighbors(notes, links, k)
        },
{
}

} // verus!
