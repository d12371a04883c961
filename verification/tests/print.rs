use bicliques::{biclique_covers, Bigraph, Edge};
use std::ops::ControlFlow;

fn printed(g: &Bigraph, max_size: usize) -> Vec<String> {
    let mut all = Vec::new();
    let _ = biclique_covers::<(), _>(g, max_size, |c| {
        all.push(c.print(g));
        ControlFlow::Continue(())
    });
    all
}

#[test]
fn cover_is_printed_side_by_side() {
    let mut g = Bigraph::new(2, 3);
    g.add(Edge(0, 0));
    g.add(Edge(0, 2));
    g.add(Edge(1, 1));
    assert_eq!(printed(&g, 2), ["01|010 10|101"]);
}

#[test]
fn sides_without_vertices_are_printed_empty() {
    let g = Bigraph::new(0, 0);
    assert_eq!(printed(&g, 1), ["", "|"]);
    let g = Bigraph::new(2, 0);
    assert_eq!(printed(&g, 0), [""]);
}

#[test]
fn bicliques_are_printed_in_canonical_order() {
    let mut g = Bigraph::new(3, 3);
    for i in 0..3 {
        g.add(Edge(i, i));
    }
    assert_eq!(printed(&g, 3), ["001|001 010|010 100|100"]);
}
