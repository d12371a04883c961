use bicliques::{biclique_covers, Bigraph, BicliqueCover, Edge};
use rand::rngs::StdRng;
use rand::{Rng, SeedableRng};
use std::cmp::Ordering;
use std::collections::HashSet;
use std::ops::ControlFlow;

enum Never {}

fn all_solutions(g: &Bigraph, k: usize) -> HashSet<BicliqueCover> {
    let mut cliques = HashSet::new();
    let _ = biclique_covers::<Never, _>(g, k, |c| {
        if g.is_maximal_cover(&c) {
            assert!(cliques.insert(c));
        }
        ControlFlow::Continue(())
    });
    cliques
}

fn all_covers(g: &Bigraph, k: usize) -> Vec<BicliqueCover> {
    let mut covers = Vec::new();
    let _ = biclique_covers::<Never, _>(g, k, |c| {
        covers.push(c);
        ControlFlow::Continue(())
    });
    covers
}

fn check_solutions<const N: usize>(
    mut v: [&'static str; N],
    g: &Bigraph,
    solutions: &HashSet<BicliqueCover>,
) {
    let mut w = solutions.iter().map(|c| c.print(g)).collect::<Vec<_>>();
    v.sort();
    w.sort();

    let mut errors: Vec<String> = Vec::new();
    match v.len().cmp(&w.len()) {
        Ordering::Equal => {}
        Ordering::Less => errors.push(format!("at least {} unexpected elements", w.len() - v.len())),
        Ordering::Greater => errors.push(format!("at least {} missing elements", v.len() - w.len())),
    }

    let mut v = v.iter().peekable();
    let mut w = w.iter().peekable();
    loop {
        match (v.peek(), w.peek()) {
            (Some(a), None) => errors.push(format!("missing clique:    {}", a)),
            (None, Some(b)) => errors.push(format!("unexpected clique: {}", b)),
            (Some(&&a), Some(b)) => match a.cmp(b.as_str()) {
                Ordering::Equal => {}
                Ordering::Less => {
                    errors.push(format!("missing clique:    {}", a));
                    v.next();
                    continue;
                }
                Ordering::Greater => {
                    errors.push(format!("unexpected clique: {}", b));
                    w.next();
                    continue;
                }
            },
            (None, None) => {
                if errors.is_empty() {
                    return;
                } else {
                    for e in &errors {
                        println!("{}", e);
                    }
                    panic!("{}", errors.join("; "));
                }
            }
        }

        v.next();
        w.next();
    }
}

/// Whether the bicliques of `c` are bicliques of `g` that hold every edge.
fn covers_exactly(g: &Bigraph, c: &BicliqueCover) -> bool {
    for x in 0..g.left() {
        for y in 0..g.right() {
            let held = c.cliques().iter().any(|q| q.contains(Edge(x, y)));
            if held != g.get(Edge(x, y)) {
                return false;
            }
        }
    }
    true
}

const T: bool = true;
const F: bool = false;

#[test]
fn small() {
    let g = Bigraph::from([[T, T], [F, T], [T, F]]);
    let solutions = all_solutions(&g, 5);
    check_solutions(["101|10 110|01", "101|10 110|01 100|11"], &g, &solutions)
}

#[test]
fn syn_le_min() {
    let g = Bigraph::from([
        [T, T, T, T, F],
        [T, T, F, T, T],
        [T, F, T, T, F],
        [T, T, T, T, T],
        [F, T, F, T, T],
    ]);
    let solutions = all_solutions(&g, 4);
    check_solutions(
        [
            "01011|01011 10110|10110 11010|11010",
            "01011|01011 10110|10110 11010|11010 10010|11110",
            "01011|01011 11110|10010 10110|10110 10010|11110",
            "01011|01011 10110|10110 01010|11011 10010|11110",
            "01011|01011 10110|10110 11010|11010 01010|11011",
            "01011|01011 10110|10110 11010|11010 00010|11111",
            "11011|01010 01011|01011 11110|10010 10110|10110",
            "11011|01010 01011|01011 10110|10110 01010|11011",
        ],
        &g,
        &solutions,
    )
}

#[test]
fn identity_graph_has_one_cover_of_singletons() {
    for n in 1..=5u32 {
        let mut g = Bigraph::new(n, n);
        for i in 0..n {
            g.add(Edge(i, i));
        }
        let covers = all_covers(&g, n as usize);
        assert_eq!(covers.len(), 1);
        let cover = &covers[0];
        assert_eq!(cover.cliques().len(), n as usize);
        for (place, clique) in cover.cliques().iter().enumerate() {
            let vertex = n - 1 - place as u32;
            assert_eq!(clique.left(), vec![vertex]);
            assert_eq!(clique.right(), vec![vertex]);
        }
    }
}

#[test]
fn identity_graph_has_no_smaller_cover() {
    let mut g = Bigraph::new(4, 4);
    for i in 0..4 {
        g.add(Edge(i, i));
    }
    assert!(all_covers(&g, 3).is_empty());
    assert!(all_covers(&g, 1).is_empty());
}

#[test]
fn complete_graph_has_one_cover_by_one_biclique() {
    for (left, right) in [(1u32, 1u32), (2, 3), (3, 2), (4, 4)] {
        let mut g = Bigraph::new(left, right);
        for x in 0..left {
            for y in 0..right {
                g.add(Edge(x, y));
            }
        }
        let covers = all_covers(&g, 1);
        assert_eq!(covers.len(), 1);
        assert_eq!(covers[0].cliques().len(), 1);
        assert_eq!(covers[0].cliques()[0].left(), (0..left).collect::<Vec<_>>());
        assert_eq!(covers[0].cliques()[0].right(), (0..right).collect::<Vec<_>>());
        assert_eq!(
            covers[0].print(&g),
            format!("{}|{}", "1".repeat(left as usize), "1".repeat(right as usize))
        );
    }
}

#[test]
fn edges_that_are_all_apart_have_one_cover() {
    let mut g = Bigraph::new(3, 5);
    for e in [Edge(0, 3), Edge(1, 0), Edge(2, 2)] {
        g.add(e);
    }
    let covers = all_covers(&g, 3);
    assert_eq!(covers.len(), 1);
    assert_eq!(covers[0].print(&g), "001|00100 010|10000 100|00010");
}

#[test]
fn one_biclique_beside_unused_vertices_is_the_one_cover() {
    let mut g = Bigraph::new(4, 4);
    for x in [1u32, 3] {
        for y in [0u32, 2] {
            g.add(Edge(x, y));
        }
    }
    let covers = all_covers(&g, 1);
    assert_eq!(covers.len(), 1);
    assert_eq!(covers[0].print(&g), "0101|1010");
}

#[test]
fn graph_without_edges_is_covered_by_nothing() {
    let g = Bigraph::new(3, 2);
    let covers = all_covers(&g, 0);
    assert_eq!(covers.len(), 1);
    assert_eq!(covers[0].cliques().len(), 0);
    assert_eq!(covers[0].print(&g), "");
}

#[test]
fn random_graphs_are_covered() {
    let mut rng = StdRng::seed_from_u64(0x5eed);
    for _ in 0..100 {
        let n: u32 = rng.gen_range(1..=6);
        let density = [0.2, 0.4, 0.5, 0.6, 0.8][rng.gen_range(0..5)];
        let mut g = Bigraph::new(n, n);
        for x in 0..n {
            for y in 0..n {
                if rng.gen_bool(density) {
                    g.add(Edge(x, y));
                }
            }
        }
        let covers = all_covers(&g, n as usize);
        let mut smallest = usize::MAX;
        for c in &covers {
            assert!(covers_exactly(&g, c));
            assert!(c.cliques().len() <= n as usize);
            smallest = smallest.min(c.cliques().len());
        }
        assert!(smallest <= n as usize);
    }
}

#[test]
fn maximal_covers_come_once() {
    let mut rng = StdRng::seed_from_u64(7);
    for _ in 0..40 {
        let n: u32 = rng.gen_range(1..=5);
        let mut g = Bigraph::new(n, n);
        for x in 0..n {
            for y in 0..n {
                if rng.gen_bool(0.6) {
                    g.add(Edge(x, y));
                }
            }
        }
        let mut seen = HashSet::new();
        for c in all_covers(&g, n as usize) {
            if g.is_maximal_cover(&c) {
                assert!(seen.insert(c));
            }
        }
    }
}

#[test]
fn break_stops_the_search() {
    let g = Bigraph::from([[T, T], [F, T], [T, F]]);
    let mut calls = 0;
    let r = biclique_covers(&g, 5, |c| {
        calls += 1;
        ControlFlow::Break(c.print(&g))
    });
    assert_eq!(calls, 1);
    assert_eq!(r, ControlFlow::Break("101|10 110|01".to_string()));
}

#[test]
fn continue_is_returned_when_the_search_is_over() {
    let g = Bigraph::from([[T, T], [F, T], [T, F]]);
    let mut calls = 0;
    let r: ControlFlow<Never> = biclique_covers(&g, 5, |_| {
        calls += 1;
        ControlFlow::Continue(())
    });
    assert!(matches!(r, ControlFlow::Continue(())));
    assert!(calls >= 2);
}

#[test]
fn nothing_is_found_below_the_lower_bound() {
    let g = Bigraph::from([[T, T], [F, T], [T, F]]);
    assert!(all_covers(&g, 1).is_empty());
    assert_eq!(all_solutions(&g, 2).len(), 1);
}

#[test]
fn covers_are_canonical() {
    let g = Bigraph::from([
        [T, T, T, T, F],
        [T, T, F, T, T],
        [T, F, T, T, F],
        [T, T, T, T, T],
        [F, T, F, T, T],
    ]);
    for c in all_covers(&g, 4) {
        let mut again = c.clone();
        again.canonicalize();
        assert_eq!(again, c);
        assert_eq!(again.print(&g), c.print(&g));
    }
}
