use bicliques::forced::{dominated_entries, forced_elements, optimal_forced_elements};
use bicliques::{exhaustive, Bigraph, Edge};

fn graph(rows: &[&str]) -> Bigraph {
    let mut g = Bigraph::new(rows.len() as u32, rows[0].len() as u32);
    for (x, row) in rows.iter().enumerate() {
        for (y, c) in row.chars().enumerate() {
            if c == '1' {
                g.add(Edge(x as u32, y as u32));
            }
        }
    }
    g
}

fn pairwise_apart(g: &Bigraph, edges: &[Edge]) -> bool {
    for (i, &a) in edges.iter().enumerate() {
        if !g.get(a) {
            return false;
        }
        for &b in &edges[i + 1..] {
            if g.may_share(a, b) {
                return false;
            }
        }
    }
    true
}

const SYN: [&str; 5] = ["11110", "11011", "10110", "11111", "01011"];

#[test]
fn edges_alone_in_row_or_column_are_taken() {
    // (1,1) and (2,0) are alone in their rows.
    let g = graph(&["11", "01", "10"]);
    assert_eq!(optimal_forced_elements(&g.entries()), vec![Edge(1, 1), Edge(2, 0)]);
    // (0,0) is alone in its column; (2,2) shares no end with it; (1,1)
    // is not alone in either.
    let g = graph(&["110", "011", "001"]);
    assert_eq!(optimal_forced_elements(&g.entries()), vec![Edge(0, 0), Edge(2, 2)]);
    // An edge that is alone is not taken where it shares an end with one
    // that was taken.
    let g = graph(&["10", "10"]);
    assert_eq!(optimal_forced_elements(&g.entries()), vec![Edge(0, 0)]);
    assert_eq!(optimal_forced_elements(&graph(&SYN).entries()), vec![]);
    assert_eq!(optimal_forced_elements(&[]), vec![]);
}

#[test]
fn no_candidate_is_dropped_as_dominated() {
    let g = graph(&SYN);
    assert!(dominated_entries(&g, &g.entries()).is_empty());
}

#[test]
fn forced_elements_of_known_graphs() {
    assert_eq!(forced_elements(&graph(&["11", "01", "10"])), vec![Edge(1, 1), Edge(2, 0)]);
    assert_eq!(forced_elements(&graph(&SYN)), vec![Edge(0, 1), Edge(3, 4), Edge(2, 3)]);
    assert_eq!(
        forced_elements(&graph(&["110", "011", "001"])),
        vec![Edge(0, 0), Edge(2, 2), Edge(1, 1)]
    );
    assert_eq!(
        forced_elements(&graph(&["1000", "0100", "0010", "0001"])),
        vec![Edge(0, 0), Edge(1, 1), Edge(2, 2), Edge(3, 3)]
    );
    assert_eq!(forced_elements(&graph(&["111", "111"])), vec![Edge(0, 0)]);
    assert_eq!(
        forced_elements(&graph(&["1101", "0110", "1011", "0001"])),
        vec![Edge(3, 3), Edge(0, 0), Edge(2, 2), Edge(1, 1)]
    );
    assert_eq!(forced_elements(&Bigraph::new(3, 3)), vec![]);
}

#[test]
fn plain_search_of_known_graphs() {
    assert_eq!(
        exhaustive::forced_elements(&graph(&["11", "01", "10"])),
        vec![Edge(2, 0), Edge(1, 1)]
    );
    assert_eq!(
        exhaustive::forced_elements(&graph(&SYN)),
        vec![Edge(4, 4), Edge(3, 2), Edge(1, 0)]
    );
    assert_eq!(exhaustive::forced_elements(&graph(&["111", "111"])), vec![Edge(1, 2)]);
    assert_eq!(exhaustive::forced_elements(&Bigraph::new(3, 3)), vec![]);
}

#[test]
fn forced_elements_are_pairwise_apart() {
    let mut state: u64 = 0x2545_f491_4f6c_dd1d;
    for _ in 0..60 {
        let mut g = Bigraph::new(5, 6);
        for x in 0..5 {
            for y in 0..6 {
                state ^= state << 13;
                state ^= state >> 7;
                state ^= state << 17;
                if state % 3 != 0 {
                    g.add(Edge(x, y));
                }
            }
        }
        let forced = forced_elements(&g);
        let plain = exhaustive::forced_elements(&g);
        assert!(pairwise_apart(&g, &forced));
        assert!(pairwise_apart(&g, &plain));
        assert_eq!(forced.len(), plain.len());
        assert_eq!(forced.is_empty(), g.entries().is_empty());
    }
}

#[test]
fn no_cover_is_smaller_than_the_forced_edges() {
    let g = graph(&SYN);
    let forced = forced_elements(&g);
    assert_eq!(forced.len(), 3);
    let mut sizes = Vec::new();
    let _ = bicliques::biclique_covers::<(), _>(&g, 5, |c| {
        sizes.push(c.cliques().len());
        std::ops::ControlFlow::Continue(())
    });
    assert!(!sizes.is_empty());
    assert!(sizes.iter().all(|&n| n >= forced.len()));
    assert_eq!(sizes.iter().copied().min(), Some(3));
}
