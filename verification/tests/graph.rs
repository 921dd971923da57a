use std::collections::HashMap;

use herbalist::embeddings::cleora::{kept_notes, neighbors, Link, DIM, N_ITERS};
use herbalist::mcp::graph::{GraphWalk, LinkType, Neighbor};
use herbalist::mcp::tools::{graph_depth, graph_neighbors, MAX_DEPTH};

type Edges = Vec<(&'static str, &'static str)>;

fn out(edges: &Edges, p: &str) -> Vec<String> {
    edges.iter().filter(|e| e.0 == p).map(|e| e.1.to_owned()).collect()
}

fn back(edges: &Edges, p: &str) -> Vec<String> {
    edges.iter().filter(|e| e.1 == p).map(|e| e.0.to_owned()).collect()
}

fn walk(edges: &Edges, start: &str, depth: Option<u64>) -> Vec<Neighbor> {
    let mut w = graph_neighbors(start, depth);
    while let Some(p) = w.next() {
        w.expand(&out(edges, &p), &back(edges, &p));
    }
    w.neighbors()
}

fn shown(found: &[Neighbor]) -> Vec<(String, &'static str, usize)> {
    found
        .iter()
        .map(|n| (n.path.clone(), n.link_type.name(), n.depth))
        .collect()
}

fn row(path: &str, link_type: &'static str, depth: usize) -> (String, &'static str, usize) {
    (path.to_owned(), link_type, depth)
}

#[test]
fn walk_goes_both_ways() {
    let edges = vec![("a", "b"), ("c", "a"), ("b", "d"), ("e", "c"), ("d", "f")];
    assert_eq!(
        shown(&walk(&edges, "a", None)),
        vec![row("b", "outlink", 1), row("c", "backlink", 1)]
    );
    assert_eq!(
        shown(&walk(&edges, "a", Some(2))),
        vec![
            row("b", "outlink", 1),
            row("c", "backlink", 1),
            row("d", "outlink", 2),
            row("e", "backlink", 2),
        ]
    );
}

#[test]
fn walk_finds_each_note_once() {
    let edges = vec![("a", "b"), ("b", "a"), ("a", "a"), ("b", "c"), ("a", "c"), ("c", "b")];
    assert_eq!(
        shown(&walk(&edges, "a", Some(5))),
        vec![row("b", "outlink", 1), row("c", "outlink", 1)]
    );
}

#[test]
fn direct_neighbors_are_outlinks_if_the_start_links_to_them() {
    let edges = vec![("b", "a"), ("a", "b"), ("c", "a"), ("a", "d"), ("b", "d"), ("d", "c")];
    for n in walk(&edges, "a", Some(3)) {
        if n.depth == 1 {
            let linked = out(&edges, "a").contains(&n.path);
            assert_eq!(n.link_type == LinkType::Outlink, linked, "{}", n.path);
        }
    }
}

#[test]
fn walk_ends_after_a_visit_to_each_note() {
    let names: Vec<String> = (0..6).map(|i| i.to_string()).collect();
    let mut w = GraphWalk::new("0", 100);
    let mut visits = 0;
    while w.next().is_some() {
        w.expand(&names, &names);
        visits += 1;
    }
    assert_eq!(visits, 6);
    assert_eq!(w.neighbors().len(), 5);
}

#[test]
fn walk_without_depth_or_links() {
    let edges = vec![("a", "b")];
    assert!(walk(&edges, "a", Some(0)).is_empty());
    assert!(walk(&edges, "x", Some(3)).is_empty());
}

#[test]
fn walk_stops_at_the_cap() {
    let edges = vec![
        ("0", "1"), ("1", "2"), ("2", "3"), ("3", "4"), ("4", "5"), ("5", "6"), ("6", "7"),
    ];
    let found = walk(&edges, "0", Some(100));
    assert_eq!(found.len(), MAX_DEPTH);
    assert_eq!(found.last().unwrap().path, "5");
    assert_eq!(graph_depth(None), 1);
    assert_eq!(graph_depth(Some(3)), 3);
    assert_eq!(graph_depth(Some(6)), 5);
}

#[test]
fn walk_depths_are_distances() {
    let names = ["n0", "n1", "n2", "n3", "n4", "n5", "n6", "n7"];
    let mut state: u64 = 12345;
    for _ in 0..200 {
        let mut edges: Edges = Vec::new();
        for _ in 0..9 {
            state = state.wrapping_mul(6364136223846793005).wrapping_add(1442695040888963407);
            let a = names[((state >> 33) % 8) as usize];
            let b = names[((state >> 40) % 8) as usize];
            edges.push((a, b));
        }
        let mut distance: HashMap<&str, usize> = HashMap::new();
        distance.insert("n0", 0);
        for d in 1..=4usize {
            let known = distance.clone();
            for (a, b) in &edges {
                for (x, y) in [(a, b), (b, a)] {
                    if known.get(x) == Some(&(d - 1)) && !known.contains_key(y) {
                        distance.insert(y, d);
                    }
                }
            }
        }
        let found = walk(&edges, "n0", Some(4));
        assert_eq!(found.len(), distance.len() - 1);
        let mut last = 0;
        for n in &found {
            assert_eq!(distance.get(n.path.as_str()), Some(&n.depth));
            assert!(last <= n.depth);
            last = n.depth;
        }
    }
}

#[test]
fn walk_is_driven_step_by_step() {
    let mut w = GraphWalk::new("a", 1);
    assert_eq!(w.next().as_deref(), Some("a"));
    w.expand(&vec!["b".to_owned()], &vec!["b".to_owned(), "a".to_owned()]);
    assert_eq!(w.next(), None);
    let found = w.neighbors();
    assert_eq!(found.len(), 1);
    assert_eq!(found[0].link_type, LinkType::Outlink);
}

fn link(source: &str, target: &str, weight: f32) -> Link {
    Link {
        source: source.to_owned(),
        target: target.to_owned(),
        weight: weight.to_bits(),
    }
}

fn names(items: &[&str]) -> Vec<String> {
    items.iter().map(|s| s.to_string()).collect()
}

#[test]
fn neighbors_in_both_directions() {
    let one = 1.0f32.to_bits();
    let half = 0.5f32.to_bits();
    let lists = neighbors(
        &names(&["a", "b", "c", "d"]),
        &vec![
            link("b", "a", 1.0),
            link("a", "c", 0.5),
            link("a", "gone", 1.0),
            link("gone", "d", 1.0),
            link("a", "b", 1.0),
        ],
    );
    assert_eq!(lists[0], vec![(2, half), (1, one), (1, one)]);
    assert_eq!(lists[1], vec![(0, one), (0, one)]);
    assert_eq!(lists[2], vec![(0, half)]);
    assert!(lists[3].is_empty());
}

#[test]
fn vectors_of_notes_with_neighbors_are_kept() {
    let notes = names(&["a", "b", "c", "d", "e", "f"]);
    let links = vec![
        link("c", "a", 1.0),
        link("b", "gone", 1.0),
        link("gone", "d", 1.0),
        link("f", "f", 0.5),
    ];
    assert_eq!(kept_notes(&notes, &links), names(&["a", "c", "f"]));
    let lists = neighbors(&notes, &links);
    for (note, list) in notes.iter().zip(lists.iter()) {
        assert_eq!(kept_notes(&notes, &links).contains(note), !list.is_empty());
    }
    assert!(kept_notes(&notes, &vec![]).is_empty());
    assert!(kept_notes(&vec![], &links).is_empty());
}

#[test]
fn neighbors_are_mutual() {
    let notes = names(&["a", "b", "c"]);
    let lists = neighbors(
        &notes,
        &vec![link("a", "b", 1.0), link("b", "c", 0.25), link("c", "c", 0.5)],
    );
    for (i, list) in lists.iter().enumerate() {
        for (j, w) in list {
            assert!(lists[*j].contains(&(i, *w)));
        }
    }
    assert!(neighbors(&vec![], &vec![link("a", "b", 1.0)]).is_empty());
    assert_eq!((DIM, N_ITERS), (128, 3));
}
