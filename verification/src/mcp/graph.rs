//! The walk over the link graph from a note, breadth first.
use vstd::hash_map::StringHashMap;
use vstd::prelude::*;

use crate::lists;

verus! {

/// In which direction a link was followed.
#[derive(Debug, Clone, Copy, PartialEq, Eq, Structural)]
pub enum LinkType {
    Outlink,
    Backlink,
}

impl LinkType {
    /// How the direction is shown.
    pub fn name(self) -> (r: &'static str)
        ensures
            r@ == match self {
                LinkType::Outlink => "outlink"@,
                LinkType::Backlink => "backlink"@,
            },
    {
        match self {
            LinkType::Outlink => "outlink",
            LinkType::Backlink => "backlink",
        }
    }
}

/// A note that the walk has come to.
#[derive(Debug, Clone)]
pub struct Neighbor {
    pub path: String,
    /// The direction of the link that led to it first.
    pub link_type: LinkType,
    /// How many links lie between the start and the note.
    pub depth: usize,
}

/// What a [`Neighbor`] holds.
pub struct NeighborModel {
    pub path: Seq<char>,
    pub link_type: LinkType,
    pub depth: nat,
}

impl DeepView for Neighbor {
    type V = NeighborModel;

    open spec fn deep_view(&self) -> NeighborModel {
        NeighborModel {
            path: self.path@,
            link_type: self.link_type,
            depth: self.depth as nat,
        }
    }
}

/// A walk under way. The notes that the walk has come to are visited in the order
/// in which it came to them, the start first.
pub struct GraphWalk {
    start: String,
    limit: usize,
    found: Vec<Neighbor>,
    /// Whether the start has been visited.
    started: bool,
    /// How many of the notes found have been visited.
    visited: usize,
    /// The paths of the start and of all notes found.
    seen: StringHashMap<bool>,
}

/// What a [`GraphWalk`] holds.
pub struct WalkModel {
    pub start: Seq<char>,
    pub limit: nat,
    pub found: Seq<NeighborModel>,
    pub visited: nat,
}

impl View for GraphWalk {
    type V = WalkModel;

    closed spec fn view(&self) -> WalkModel {
        WalkModel {
            start: self.start@,
            limit: self.limit as nat,
            found: self.found.deep_view(),
            visited: if self.started {
                self.visited as nat + 1
            } else {
                0
            },
        }
    }
}

/// Whether the walk has come to a note.
pub open spec fn known(start: Seq<char>, found: Seq<NeighborModel>, path: Seq<char>) -> bool {
    path == start || exists|i: int| 0 <= i < found.len() && (#[trigger] found[i]).path == path
}

/// The walk before its first visit.
pub open spec fn walk_from(start: Seq<char>, limit: nat) -> WalkModel {
    WalkModel { start, limit, found: seq![], visited: 0 }
}

/// The path of a note that the walk has come to; the start is at place 0.
pub open spec fn path_at(w: WalkModel, i: int) -> Seq<char> {
    if i == 0 {
        w.start
    } else {
        w.found[i - 1].path
    }
}

/// The depth of a note that the walk has come to.
pub open spec fn depth_at(w: WalkModel, i: int) -> nat {
    if i == 0 {
        0
    } else {
        w.found[i - 1].depth
    }
}

/// The note to visit next, if there is one: one that lies less deep than the
/// limit.
pub open spec fn next_visit(w: WalkModel) -> Option<Seq<char>> {
    if w.visited <= w.found.len() && depth_at(w, w.visited as int) < w.limit {
        Some(path_at(w, w.visited as int))
    } else {
        None
    }
}

/// The notes found, with those of the linked notes that are new.
pub open spec fn with_links(
    start: Seq<char>,
    found: Seq<NeighborModel>,
    paths: Seq<Seq<char>>,
    link_type: LinkType,
    depth: nat,
) -> Seq<NeighborModel>
    decreases paths.len(),
{
    if paths.len() == 0 {
        found
    } else {
        let before = with_links(start, found, paths.drop_last(), link_type, depth);
        if known(start, before, paths.last()) {
            before
        } else {
            before.push(NeighborModel { path: paths.last(), link_type, depth })
        }
    }
}

/// The walk after a visit to the note that is next: first the notes it links to
/// are added, then those that link to it.
pub open spec fn visit(
    w: WalkModel,
    outlinks: Seq<Seq<char>>,
    backlinks: Seq<Seq<char>>,
) -> WalkModel {
    let depth = depth_at(w, w.visited as int) + 1;
    let found = with_links(w.start, w.found, outlinks, LinkType::Outlink, depth);
    WalkModel {
        found: with_links(w.start, found, backlinks, LinkType::Backlink, depth),
        visited: w.visited + 1,
        ..w
    }
}

/// Whether a map lists the notes that the walk has come to.
spec fn lists_known(seen: Map<Seq<char>, bool>, start: Seq<char>, found: Seq<NeighborModel>) -> bool {
    forall|p: Seq<char>| #[trigger] seen.contains_key(p) <==> known(start, found, p)
}

/// Whether no note lies deeper than the limit.
spec fn within(found: Seq<NeighborModel>, limit: nat) -> bool {
    forall|i: int| 0 <= i < found.len() ==> (#[trigger] found[i]).depth <= limit
}

/// Adds the linked notes that are new.
fn add_links(
    start: &String,
    found: &mut Vec<Neighbor>,
    seen: &mut StringHashMap<bool>,
    paths: &Vec<String>,
    link_type: LinkType,
    depth: usize,
)
    requires
        lists_known(old(seen)@, start@, old(found).deep_view()),
    ensures
        lists_known(final(seen)@, start@, final(found).deep_view()),
        final(found).deep_view() == with_links(
            start@,
            old(found).deep_view(),
            paths.deep_view(),
            link_type,
            depth as nat,
        ),
{
    let ghost all = paths.deep_view();
    let ghost first = found.deep_view();
    let mut i: usize = 0;
    assert(with_links(start@, first, all.take(0), link_type, depth as nat) == first);
    while i < paths.len()
        invariant
            i <= paths@.len(),
            all == paths.deep_view(),
            lists_known(seen@, start@, found.deep_view()),
            found.deep_view() == with_links(
                start@,
                first,
                all.take(i as int),
                link_type,
                depth as nat,
            ),
        decreases paths@.len() - i,
    {
        let ghost had = found.deep_view();
        let ghost had_seen = seen@;
        proof {
            assert(all.take(i + 1).drop_last() =~= all.take(i as int));
            assert(all.take(i + 1).last() == paths@[i as int]@);
        }
        if !seen.contains_key(paths[i].as_str()) {
            let path = paths[i].clone();
            seen.insert(paths[i].clone(), true);
            found.push(Neighbor { path, link_type, depth });
            proof {
                let one = NeighborModel { path: path@, link_type, depth: depth as nat };
                let now = found.deep_view();
                assert(now =~= had.push(one));
                assert forall|p: Seq<char>|
                    #[trigger] seen@.contains_key(p) <==> known(start@, now, p) by {
                    assert(had_seen.contains_key(p) <==> known(start@, had, p));
                    if known(start@, had, p) && p != start@ {
                        let j = choose|j: int| 0 <= j < had.len() && (#[trigger] had[j]).path == p;
                        assert(now[j].path == p);
                    }
                    if known(start@, now, p) && p != start@ && p != path@ {
                        let j = choose|j: int| 0 <= j < now.len() && (#[trigger] now[j]).path == p;
                        assert(had[j].path == p);
                    }
                    if p == path@ {
                        assert(now[had.len() as int].path == p);
                    }
                }
            }
        }
        i = i + 1;
    }
    assert(all.take(i as int) =~= all);
}

impl GraphWalk {
    /// The walk knows which notes it has come to, has visited no more than those,
    /// and none lies deeper than the limit.
    #[verifier::type_invariant]
    spec fn inv(self) -> bool {
        &&& self.visited <= self.found@.len()
        &&& !self.started ==> self.visited == 0
        &&& lists_known(self.seen@, self@.start, self@.found)
        &&& within(self@.found, self.limit as nat)
    }

    /// A walk from a note, over at most `limit` links.
    pub fn new(start: &str, limit: usize) -> (r: GraphWalk)
        ensures
            r@ == walk_from(start@, limit as nat),
    {
        let mut seen: StringHashMap<bool> = StringHashMap::new();
        seen.insert(start.to_owned(), true);
        let found: Vec<Neighbor> = Vec::new();
        assert(found.deep_view() =~= seq![]);
        GraphWalk { start: start.to_owned(), limit, found, started: false, visited: 0, seen }
    }

    /// The note whose links are wanted next.
    pub fn next(&self) -> (r: Option<String>)
        ensures
            r.deep_view() == next_visit(self@),
    {
        proof {
            use_type_invariant(&*self);
        }
        if !self.started {
            if self.limit == 0 {
                None
            } else {
                Some(self.start.clone())
            }
        } else if self.visited == self.found.len() {
            None
        } else {
            let n = &self.found[self.visited];
            assert(self@.found[self.visited as int] == n.deep_view());
            if n.depth < self.limit {
                Some(n.path.clone())
            } else {
                None
            }
        }
    }

    /// Visits the note that is [`next`](GraphWalk::next), whose links are given.
    pub fn expand(&mut self, outlinks: &Vec<String>, backlinks: &Vec<String>)
        requires
            next_visit(old(self)@) is Some,
        ensures
            final(self)@ == visit(old(self)@, outlinks.deep_view(), backlinks.deep_view()),
    {
        let ghost w = self@;
        let mut taken = GraphWalk::new("", 0);
        std::mem::swap(self, &mut taken);
        proof {
            use_type_invariant(&taken);
        }
        let start = taken.start;
        let limit = taken.limit;
        let mut found = taken.found;
        let mut seen = taken.seen;
        let started = taken.started;
        let visited = taken.visited;
        let depth: usize = if !started {
            1
        } else {
            let n = &found[visited];
            assert(w.found[visited as int] == n.deep_view());
            n.depth + 1
        };
        let ghost mid = with_links(
            start@,
            w.found,
            outlinks.deep_view(),
            LinkType::Outlink,
            depth as nat,
        );
        add_links(&start, &mut found, &mut seen, outlinks, LinkType::Outlink, depth);
        add_links(&start, &mut found, &mut seen, backlinks, LinkType::Backlink, depth);
        proof {
            let all = found.deep_view();
            lemma_with_links(
                start@,
                w.found,
                outlinks.deep_view(),
                LinkType::Outlink,
                depth as nat,
            );
            lemma_with_links(start@, mid, backlinks.deep_view(), LinkType::Backlink, depth as nat);
            assert forall|i: int| 0 <= i < all.len() implies (#[trigger] all[i]).depth <= limit by {
                if i < w.found.len() {
                    assert(mid[i] == w.found[i]);
                } else if i < mid.len() {
                    assert(all[i] == mid[i]);
                }
            }
            assert(found@.len() == all.len());
        }
        *self = GraphWalk {
            start,
            limit,
            visited: if started && visited < found.len() {
                visited + 1
            } else {
                visited
            },
            found,
            started: true,
            seen,
        };
    }

    /// The notes that the walk has come to, in the order in which it did.
    pub fn neighbors(self) -> (r: Vec<Neighbor>)
        ensures
            r.deep_view() == self@.found,
    {
        self.found
    }
}

proof fn lemma_with_links(
    start: Seq<char>,
    found: Seq<NeighborModel>,
    paths: Seq<Seq<char>>,
    link_type: LinkType,
    depth: nat,
)
    ensures
        ({
            let r = with_links(start, found, paths, link_type, depth);
            &&& found.len() <= r.len()
            &&& forall|i: int| 0 <= i < found.len() ==> #[trigger] r[i] == found[i]
            &&& forall|i: int|
                found.len() <= i < r.len() ==> (#[trigger] r[i]).depth == depth && r[i].link_type
                    == link_type && paths.contains(r[i].path) && r[i].path != start
            &&& forall|i: int, j: int|
                0 <= i < j < r.len() && found.len() <= j ==> (#[trigger] r[i]).path != (
                #[trigger] r[j]).path
            &&& forall|p: Seq<char>| #[trigger] paths.contains(p) ==> known(start, r, p)
        }),
    decreases paths.len(),
{
    if paths.len() > 0 {
        let before_paths = paths.drop_last();
        let last = paths.last();
        lemma_with_links(start, found, before_paths, link_type, depth);
        let a = with_links(start, found, before_paths, link_type, depth);
        let r = with_links(start, found, paths, link_type, depth);
        lists::lemma_last_contains(paths);
        assert forall|i: int|
            found.len() <= i < r.len() implies (#[trigger] r[i]).depth == depth && r[i].link_type
            == link_type && paths.contains(r[i].path) && r[i].path != start by {
            if i < a.len() {
                assert(r[i] == a[i]);
                assert(before_paths.contains(a[i].path));
            }
        }
        assert forall|i: int, j: int|
            0 <= i < j < r.len() && found.len() <= j implies (#[trigger] r[i]).path != (
        #[trigger] r[j]).path by {
            assert(r[i] == a[i]);
            if j < a.len() {
                assert(r[j] == a[j]);
            }
        }
        assert forall|p: Seq<char>| #[trigger] paths.contains(p) implies known(start, r, p) by {
            if p == last {
                if !known(start, a, last) {
                    assert(r[a.len() as int].path == p);
                }
            } else {
                assert(before_paths.contains(p));
                assert(known(start, a, p));
                if p != start {
                    let i = choose|i: int| 0 <= i < a.len() && (#[trigger] a[i]).path == p;
                    assert(r[i].path == p);
                }
            }
        }
    }
}

// ── laws ─────────────────────────────────────────────────────────────────────

/// The links of a vault: for each note those that it links to, and those that
/// link to it.
pub struct Links {
    pub out: spec_fn(Seq<char>) -> Seq<Seq<char>>,
    pub back: spec_fn(Seq<char>) -> Seq<Seq<char>>,
}

/// Whether a link, in the direction given, leads from one note to another.
pub open spec fn leads(g: Links, from: Seq<char>, to: Seq<char>, link_type: LinkType) -> bool {
    match link_type {
        LinkType::Outlink => (g.out)(from).contains(to),
        LinkType::Backlink => (g.back)(from).contains(to),
    }
}

/// Whether a link leads from one note to another in the direction given, which is
/// that of an outlink if there is one.
pub open spec fn leads_first(g: Links, from: Seq<char>, to: Seq<char>, link_type: LinkType) -> bool {
    &&& leads(g, from, to, link_type)
    &&& link_type == LinkType::Outlink <==> leads(g, from, to, LinkType::Outlink)
}

/// Whether two notes are linked in either direction.
pub open spec fn linked(g: Links, from: Seq<char>, to: Seq<char>) -> bool {
    leads(g, from, to, LinkType::Outlink) || leads(g, from, to, LinkType::Backlink)
}

/// Whether `n` links, one after the other, lead from one note to another.
pub open spec fn reachable(g: Links, from: Seq<char>, to: Seq<char>, n: nat) -> bool
    decreases n,
{
    if n == 0 {
        from == to
    } else {
        exists|q: Seq<char>| reachable(g, from, q, (n - 1) as nat) && #[trigger] linked(g, q, to)
    }
}

/// Whether `n` links lead from one note to another, and fewer do not.
pub open spec fn at_distance(g: Links, from: Seq<char>, to: Seq<char>, n: nat) -> bool {
    reachable(g, from, to, n) && forall|k: nat| k < n ==> !#[trigger] reachable(g, from, to, k)
}

/// Whether the walk has come to a note at a depth that is not greater.
pub open spec fn found_by(w: WalkModel, path: Seq<char>, depth: nat) -> bool {
    exists|j: int|
        0 <= j <= w.found.len() && #[trigger] path_at(w, j) == path && depth_at(w, j) <= depth
}

/// Whether the note at place `j` was found at a visit to one before it.
pub open spec fn has_parent(w: WalkModel, g: Links, j: int) -> bool {
    exists|i: int|
        0 <= i < j && depth_at(w, j) == depth_at(w, i) + 1 && #[trigger] leads_first(
            g,
            path_at(w, i),
            path_at(w, j),
            w.found[j - 1].link_type,
        )
}

/// What holds of a walk over the links `g` at every step:
/// no note is found twice; deeper notes come later, and none lies more than one
/// link deeper than the note to visit next; each was found over a link from a
/// note before it; and all notes linked with a visited one have been found.
pub open spec fn walks(w: WalkModel, g: Links) -> bool {
    &&& w.visited <= w.found.len() + 1
    &&& forall|i: int, j: int|
        0 <= i < j <= w.found.len() ==> #[trigger] path_at(w, i) != #[trigger] path_at(w, j)
    &&& forall|i: int, j: int|
        0 <= i <= j <= w.found.len() ==> #[trigger] depth_at(w, i) <= #[trigger] depth_at(w, j)
    &&& forall|j: int| 0 <= j <= w.found.len() ==> #[trigger] depth_at(w, j) <= w.limit
    &&& w.visited <= w.found.len() ==> forall|j: int|
        0 <= j <= w.found.len() ==> #[trigger] depth_at(w, j) <= depth_at(w, w.visited as int) + 1
    &&& forall|j: int| 1 <= j <= w.found.len() ==> #[trigger] has_parent(w, g, j)
    &&& forall|i: int| 0 <= i < w.visited ==> #[trigger] depth_at(w, i) < w.limit
    &&& forall|i: int, p: Seq<char>|
        0 <= i < w.visited && #[trigger] linked(g, path_at(w, i), p) ==> found_by(
            w,
            p,
            depth_at(w, i) + 1,
        )
}

/// A walk that begins is in order.
pub proof fn law_walk_begins(start: Seq<char>, limit: nat, g: Links)
    ensures
        walks(walk_from(start, limit), g),
{
}

/// A walk stays in order at every visit, if it is given the links of the note
/// that it visits.
pub proof fn law_walk_goes_on(w: WalkModel, g: Links)
    requires
        walks(w, g),
        next_visit(w) is Some,
    ensures
        walks(visit(w, (g.out)(next_visit(w)->0), (g.back)(next_visit(w)->0)), g),
{
    let c = w.visited as int;
    let here = path_at(w, c);
    let outs = (g.out)(here);
    let backs = (g.back)(here);
    let d = depth_at(w, c);
    let mid = with_links(w.start, w.found, outs, LinkType::Outlink, d + 1);
    let v = visit(w, outs, backs);
    lemma_with_links(w.start, w.found, outs, LinkType::Outlink, d + 1);
    lemma_with_links(w.start, mid, backs, LinkType::Backlink, d + 1);
    let n = w.found.len() as int;
    assert forall|i: int| 0 <= i < n implies #[trigger] v.found[i] == w.found[i] by {
        assert(mid[i] == w.found[i]);
    }
    assert forall|j: int| 0 <= j <= n implies #[trigger] path_at(v, j) == path_at(w, j)
        && depth_at(v, j) == depth_at(w, j) by {}
    assert forall|j: int| n < j <= v.found.len() implies #[trigger] depth_at(v, j) == d + 1 by {
        if j - 1 < mid.len() {
            assert(v.found[j - 1] == mid[j - 1]);
        }
    }
    assert forall|i: int, j: int| 0 <= i < j <= v.found.len() implies #[trigger] path_at(v, i)
        != #[trigger] path_at(v, j) by {
        if j <= n {
            assert(path_at(w, i) != path_at(w, j));
        } else if j - 1 < mid.len() {
            assert(v.found[j - 1] == mid[j - 1]);
            if i > 0 {
                assert(v.found[i - 1] == mid[i - 1]);
                assert(mid[i - 1].path != mid[j - 1].path);
            }
        } else {
            if i > 0 {
                assert(v.found[i - 1].path != v.found[j - 1].path);
            }
        }
    }
    assert forall|i: int, j: int| 0 <= i <= j <= v.found.len() implies #[trigger] depth_at(v, i)
        <= #[trigger] depth_at(v, j) by {
        if j <= n {
            assert(depth_at(w, i) <= depth_at(w, j));
        } else if i <= n {
            assert(depth_at(w, i) <= d + 1);
        }
    }
    assert forall|j: int| 0 <= j <= v.found.len() implies #[trigger] depth_at(v, j) <= v.limit by {
        if j <= n {
            assert(depth_at(w, j) <= w.limit);
        }
    }
    if v.visited <= v.found.len() {
        assert(depth_at(v, c) <= depth_at(v, v.visited as int));
        assert forall|j: int| 0 <= j <= v.found.len() implies #[trigger] depth_at(v, j)
            <= depth_at(v, v.visited as int) + 1 by {
            if j <= n {
                assert(depth_at(w, j) <= d + 1);
            }
        }
    }
    assert forall|j: int| 1 <= j <= v.found.len() implies #[trigger] has_parent(v, g, j) by {
        if j <= n {
            assert(has_parent(w, g, j));
            let i = choose|i: int|
                0 <= i < j && depth_at(w, j) == depth_at(w, i) + 1 && #[trigger] leads_first(
                    g,
                    path_at(w, i),
                    path_at(w, j),
                    w.found[j - 1].link_type,
                );
            assert(v.found[j - 1] == w.found[j - 1]);
            assert(path_at(v, i) == path_at(w, i) && path_at(v, j) == path_at(w, j));
            assert(leads_first(g, path_at(v, i), path_at(v, j), v.found[j - 1].link_type));
        } else {
            assert(path_at(v, c) == here);
            let q = path_at(v, j);
            if j - 1 < mid.len() {
                assert(v.found[j - 1] == mid[j - 1]);
            } else if outs.contains(q) {
                assert(known(w.start, mid, q));
                let k = choose|k: int| 0 <= k < mid.len() && (#[trigger] mid[k]).path == q;
                assert(v.found[k].path != v.found[j - 1].path);
            }
            assert(leads_first(g, path_at(v, c), path_at(v, j), v.found[j - 1].link_type));
        }
    }
    assert forall|i: int| 0 <= i < v.visited implies #[trigger] depth_at(v, i) < v.limit by {
        if i < c {
            assert(depth_at(w, i) < w.limit);
        }
    }
    assert forall|i: int, p: Seq<char>|
        0 <= i < v.visited && #[trigger] linked(g, path_at(v, i), p) implies found_by(
        v,
        p,
        depth_at(v, i) + 1,
    ) by {
        if i < c {
            assert(path_at(v, i) == path_at(w, i));
            assert(linked(g, path_at(w, i), p));
            assert(found_by(w, p, depth_at(w, i) + 1));
            let j = choose|j: int|
                0 <= j <= w.found.len() && #[trigger] path_at(w, j) == p && depth_at(w, j)
                    <= depth_at(w, i) + 1;
            assert(path_at(v, j) == p);
        } else {
            assert(path_at(v, i) == here);
            assert(known(w.start, v.found, p)) by {
                if backs.contains(p) {
                } else {
                    assert(outs.contains(p));
                    assert(known(w.start, mid, p));
                    if p != w.start {
                        let k = choose|k: int|
                            0 <= k < mid.len() && (#[trigger] mid[k]).path == p;
                        assert(v.found[k].path == p);
                    }
                }
            }
            if p == w.start {
                assert(path_at(v, 0) == p);
            } else {
                let k = choose|k: int| 0 <= k < v.found.len() && (#[trigger] v.found[k]).path == p;
                assert(path_at(v, k + 1) == p);
                if k + 1 <= n {
                    assert(depth_at(w, k + 1) <= d + 1);
                }
            }
        }
    }
}

proof fn lemma_found_is_reachable(w: WalkModel, g: Links, j: int)
    requires
        walks(w, g),
        0 <= j <= w.found.len(),
    ensures
        reachable(g, w.start, path_at(w, j), depth_at(w, j)),
    decreases j,
{
    if j > 0 {
        assert(has_parent(w, g, j));
        let i = choose|i: int|
            0 <= i < j && depth_at(w, j) == depth_at(w, i) + 1 && #[trigger] leads_first(
                g,
                path_at(w, i),
                path_at(w, j),
                w.found[j - 1].link_type,
            );
        lemma_found_is_reachable(w, g, i);
        assert(linked(g, path_at(w, i), path_at(w, j)));
    }
}

proof fn lemma_reachable_is_found(w: WalkModel, g: Links, p: Seq<char>, n: nat)
    requires
        walks(w, g),
        next_visit(w) is None,
        n <= w.limit,
        reachable(g, w.start, p, n),
    ensures
        found_by(w, p, n),
    decreases n,
{
    if n == 0 {
        assert(path_at(w, 0) == p);
    } else {
        let q = choose|q: Seq<char>|
            reachable(g, w.start, q, (n - 1) as nat) && #[trigger] linked(g, q, p);
        lemma_reachable_is_found(w, g, q, (n - 1) as nat);
        let i = choose|i: int|
            0 <= i <= w.found.len() && #[trigger] path_at(w, i) == q && depth_at(w, i) <= n - 1;
        if i >= w.visited {
            assert(depth_at(w, w.visited as int) <= depth_at(w, i));
        }
        assert(linked(g, path_at(w, i), p));
        assert(found_by(w, p, depth_at(w, i) + 1));
        let j = choose|j: int|
            0 <= j <= w.found.len() && #[trigger] path_at(w, j) == p && depth_at(w, j) <= depth_at(
                w,
                i,
            ) + 1;
        assert(path_at(w, j) == p);
    }
}

/// A walk that has come to its end has found exactly the notes that lie at most
/// `limit` links away from the start, each once, at the depth that is its
/// distance, and over a link in the direction that is given, from a note that lies
/// one link nearer to the start; the start is not among them.
pub proof fn law_walk_ends(w: WalkModel, g: Links)
    requires
        walks(w, g),
        next_visit(w) is None,
    ensures
        forall|i: int, j: int|
            0 <= i < j < w.found.len() ==> (#[trigger] w.found[i]).path != (
            #[trigger] w.found[j]).path,
        forall|i: int|
            0 <= i < w.found.len() ==> (#[trigger] w.found[i]).path != w.start && 1
                <= w.found[i].depth <= w.limit && at_distance(
                g,
                w.start,
                w.found[i].path,
                w.found[i].depth,
            ) && arrived(g, w.start, w.found[i]),
        forall|p: Seq<char>, n: nat|
            p != w.start && n <= w.limit && #[trigger] at_distance(g, w.start, p, n) ==> known(
                w.start,
                w.found,
                p,
            ),
{
    assert forall|i: int, j: int| 0 <= i < j < w.found.len() implies (#[trigger] w.found[i]).path
        != (#[trigger] w.found[j]).path by {
        assert(path_at(w, i + 1) != path_at(w, j + 1));
    }
    assert forall|i: int| 0 <= i < w.found.len() implies (#[trigger] w.found[i]).path != w.start
        && 1 <= w.found[i].depth <= w.limit && at_distance(
        g,
        w.start,
        w.found[i].path,
        w.found[i].depth,
    ) && arrived(g, w.start, w.found[i]) by {
        let j = i + 1;
        assert(path_at(w, 0) != path_at(w, j));
        assert(depth_at(w, j) <= w.limit);
        assert(has_parent(w, g, j));
        lemma_found_is_reachable(w, g, j);
        let k = choose|k: int|
            0 <= k < j && depth_at(w, j) == depth_at(w, k) + 1 && #[trigger] leads_first(
                g,
                path_at(w, k),
                path_at(w, j),
                w.found[j - 1].link_type,
            );
        lemma_found_is_reachable(w, g, k);
        assert(leads_first(g, path_at(w, k), w.found[i].path, w.found[i].link_type));
        assert forall|n: nat| n < w.found[i].depth implies !#[trigger] reachable(
            g,
            w.start,
            w.found[i].path,
            n,
        ) by {
            if reachable(g, w.start, w.found[i].path, n) {
                lemma_reachable_is_found(w, g, w.found[i].path, n);
                let x = choose|x: int|
                    0 <= x <= w.found.len() && #[trigger] path_at(w, x) == w.found[i].path
                        && depth_at(w, x) <= n;
                if x < j {
                    assert(path_at(w, x) != path_at(w, j));
                } else if j < x {
                    assert(path_at(w, j) != path_at(w, x));
                }
            }
        }
    }
    assert forall|p: Seq<char>, n: nat|
        p != w.start && n <= w.limit && #[trigger] at_distance(g, w.start, p, n) implies known(
        w.start,
        w.found,
        p,
    ) by {
        lemma_reachable_is_found(w, g, p, n);
        let x = choose|x: int|
            0 <= x <= w.found.len() && #[trigger] path_at(w, x) == p && depth_at(w, x) <= n;
        assert(w.found[x - 1].path == p);
    }
}

/// Whether a link leads to the note from one that lies one link nearer to the
/// start, in the direction given, which is that of an outlink if there is one.
pub open spec fn arrived(g: Links, start: Seq<char>, n: NeighborModel) -> bool {
    exists|q: Seq<char>|
        n.depth >= 1 && reachable(g, start, q, (n.depth - 1) as nat) && #[trigger] leads_first(
            g,
            q,
            n.path,
            n.link_type,
        )
}

/// A note that lies one link away from the start is given as an outlink exactly if
/// the start links to it, and as a backlink otherwise.
pub proof fn law_direct_neighbor(w: WalkModel, g: Links, i: int)
    requires
        walks(w, g),
        0 <= i < w.found.len(),
        w.found[i].depth == 1,
    ensures
        w.found[i].link_type == LinkType::Outlink <==> (g.out)(w.start).contains(w.found[i].path),
        w.found[i].link_type == LinkType::Backlink ==> (g.back)(w.start).contains(w.found[i].path),
{
    let j = i + 1;
    assert(has_parent(w, g, j));
    let k = choose|k: int|
        0 <= k < j && depth_at(w, j) == depth_at(w, k) + 1 && #[trigger] leads_first(
            g,
            path_at(w, k),
            path_at(w, j),
            w.found[j - 1].link_type,
        );
    if k > 0 {
        assert(has_parent(w, g, k));
    }
}

/// Whether all links lead to notes of a list.
pub open spec fn links_within(g: Links, notes: Seq<Seq<char>>) -> bool {
    forall|p: Seq<char>, q: Seq<char>| #[trigger] linked(g, p, q) ==> notes.contains(q)
}

/// The walk after `n` visits, or at its end if it has come to it before.
pub open spec fn after_visits(w: WalkModel, g: Links, n: nat) -> WalkModel
    decreases n,
{
    if n == 0 {
        w
    } else {
        let v = after_visits(w, g, (n - 1) as nat);
        match next_visit(v) {
            Some(p) => visit(v, (g.out)(p), (g.back)(p)),
            None => v,
        }
    }
}

proof fn lemma_after_visits(start: Seq<char>, limit: nat, g: Links, n: nat)
    ensures
        ({
            let v = after_visits(walk_from(start, limit), g, n);
            walks(v, g) && v.start == start && v.limit == limit && (next_visit(v) is Some
                ==> v.visited == n)
        }),
    decreases n,
{
    if n == 0 {
        law_walk_begins(start, limit, g);
    } else {
        lemma_after_visits(start, limit, g, (n - 1) as nat);
        let v = after_visits(walk_from(start, limit), g, (n - 1) as nat);
        if next_visit(v) is Some {
            law_walk_goes_on(v, g);
        }
    }
}

/// A walk finds no more notes than there are: if all links lead to notes of a
/// list, it has come to its end after one visit more than the list is long, at the
/// latest.
pub proof fn law_walk_is_finite(
    start: Seq<char>,
    limit: nat,
    g: Links,
    notes: Seq<Seq<char>>,
    n: nat,
)
    requires
        links_within(g, notes),
        n > notes.len(),
    ensures
        walks(after_visits(walk_from(start, limit), g, n), g),
        after_visits(walk_from(start, limit), g, n).found.len() <= notes.len(),
        next_visit(after_visits(walk_from(start, limit), g, n)) is None,
{
    let v = after_visits(walk_from(start, limit), g, n);
    lemma_after_visits(start, limit, g, n);
    let paths = v.found.map_values(|f: NeighborModel| f.path);
    assert(paths.no_duplicates()) by {
        assert forall|i: int, j: int| 0 <= i < paths.len() && 0 <= j < paths.len() && i
            != j implies paths[i] != paths[j] by {
            if i < j {
                assert(path_at(v, i + 1) != path_at(v, j + 1));
            } else {
                assert(path_at(v, j + 1) != path_at(v, i + 1));
            }
        }
    }
    assert(paths.to_set().subset_of(notes.to_set())) by {
        assert forall|p: Seq<char>| #[trigger] paths.to_set().contains(p) implies notes.to_set().contains(
            p,
        ) by {
            let i = choose|i: int| 0 <= i < paths.len() && paths[i] == p;
            let j = i + 1;
            assert(has_parent(v, g, j));
            let k = choose|k: int|
                0 <= k < j && depth_at(v, j) == depth_at(v, k) + 1 && #[trigger] leads_first(
                    g,
                    path_at(v, k),
                    path_at(v, j),
                    v.found[j - 1].link_type,
                );
            assert(path_at(v, j) == p);
            assert(linked(g, path_at(v, k), p));
        }
    }
    paths.unique_seq_to_set();
    vstd::seq_lib::seq_to_set_is_finite(notes);
    vstd::set_lib::lemma_len_subset(paths.to_set(), notes.to_set());
    notes.lemma_cardinality_of_set();
}

/// A link to a note that the walk has not come to adds the note behind the others,
/// with its direction and depth; any other link adds nothing.
pub proof fn law_one_more_link(
    start: Seq<char>,
    found: Seq<NeighborModel>,
    paths: Seq<Seq<char>>,
    path: Seq<char>,
    link_type: LinkType,
    depth: nat,
)
    ensures
        with_links(start, found, Seq::<Seq<char>>::empty(), link_type, depth) == found,
        ({
            let a = with_links(start, found, paths, link_type, depth);
            let b = with_links(start, found, paths.push(path), link_type, depth);
            if path == start || exists|i: int| 0 <= i < a.len() && (#[trigger] a[i]).path == path {
                b == a
            } else {
                b == a.push(NeighborModel { path, link_type, depth })
            }
        }),
{
    assert(paths.push(path).drop_last() =~= paths);
}

/// A visit adds the notes that the visited one links to, and then those that link to
/// it, one link deeper than it lies; the next visit is to the note that comes next.
pub proof fn law_visit(w: WalkModel, outlinks: Seq<Seq<char>>, backlinks: Seq<Seq<char>>)
    ensures
        ({
            let depth = (if w.visited == 0 {
                0
            } else {
                w.found[w.visited - 1].depth
            }) + 1;
            let v = visit(w, outlinks, backlinks);
            &&& v.found == with_links(
                w.start,
                with_links(w.start, w.found, outlinks, LinkType::Outlink, depth),
                backlinks,
                LinkType::Backlink,
                depth,
            )
            &&& v.visited == w.visited + 1
            &&& v.start == w.start && v.limit == w.limit
        }),
        w.visited == 0 ==> next_visit(w) == if w.limit > 0 {
            Some(w.start)
        } else {
            None
        },
        0 < w.visited <= w.found.len() ==> next_visit(w) == if w.found[w.visited - 1].depth
            < w.limit {
            Some(w.found[w.visited - 1].path)
        } else {
            None
        },
        w.visited > w.found.len() ==> next_visit(w) is None,
{
}

} // verus!
