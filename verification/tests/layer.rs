use bicliques::covers::layer::{DataIndex, Layer};
use bicliques::covers::{left_maximal, restrict_layer, right_maximal};
use bicliques::{Biclique, Bigraph, Edge};

fn graph(rows: &[&str]) -> Bigraph {
    let mut g = Bigraph::new(rows.len() as u32, rows[0].len() as u32);
    for (x, row) in rows.iter().enumerate() {
        for (y, c) in row.chars().enumerate() {
            if c == '1' {
                g.add(Edge(x as u32, y as u32));
            }
        }
    }
    g
}

fn show(g: &Bigraph, cliques: &[Biclique]) -> Vec<String> {
    cliques
        .iter()
        .map(|c| {
            let mut s = String::new();
            for x in 0..g.left() {
                s.push(if c.left.get(x) { '1' } else { '0' });
            }
            s.push('|');
            for y in 0..g.right() {
                s.push(if c.right.get(y) { '1' } else { '0' });
            }
            s
        })
        .collect()
}

const SYN: [&str; 5] = ["11110", "11011", "10110", "11111", "01011"];

#[test]
fn data_index_offsets() {
    assert_eq!(DataIndex(0).in_biclique(), 0);
    assert_eq!(DataIndex(10).in_biclique(), 10);
    assert_eq!(DataIndex(10).may_add(0), 11);
    assert_eq!(DataIndex(10).may_add(3), 14);
    assert_eq!(DataIndex(usize::MAX - 4).may_add(3), usize::MAX);
}

#[test]
fn index_is_edge_index_times_flags_per_edge() {
    let g = Bigraph::new(3, 5);
    // The stride is 8, and a layer of size 4 has 5 flags for each edge.
    assert_eq!(Layer::index(&g, 4, Edge(0, 0)).0, 0);
    assert_eq!(Layer::index(&g, 4, Edge(0, 3)).0, 15);
    assert_eq!(Layer::index(&g, 4, Edge(2, 1)).0, 85);
    assert_eq!(Layer::index(&g, 0, Edge(2, 1)).0, 17);
}

#[test]
fn initial_layer_is_seeded_by_the_forced_edges() {
    let g = graph(&["11", "01", "10"]);
    let layer = Layer::initial(&g, 3, &[Edge(1, 1), Edge(2, 0)]);
    assert_eq!(show(&g, layer.bicliques()), ["010|01", "001|10", "000|00"]);
    assert!(!layer.covers(&g));
    // Forced edges beyond the size are left out.
    let layer = Layer::initial(&g, 1, &[Edge(1, 1), Edge(2, 0)]);
    assert_eq!(show(&g, layer.bicliques()), ["010|01"]);
    let layer = Layer::initial(&g, 0, &[]);
    assert!(layer.bicliques().is_empty());
    assert!(!layer.covers(&g));
    assert!(Layer::initial(&Bigraph::new(2, 2), 0, &[]).covers(&Bigraph::new(2, 2)));
}

#[test]
fn forced_updates_fill_in_what_has_one_choice() {
    let g = graph(&["11", "01", "10"]);
    let mut layer = Layer::initial(&g, 2, &[Edge(1, 1), Edge(2, 0)]);
    assert!(!layer.covers(&g));
    assert_eq!(layer.forced_updates(&g), Ok(()));
    assert_eq!(show(&g, layer.bicliques()), ["110|01", "101|10"]);
    assert!(layer.covers(&g));
}

#[test]
fn forced_updates_leave_what_has_two_choices() {
    let g = graph(&["11", "01", "10"]);
    let mut layer = Layer::initial(&g, 3, &[Edge(1, 1), Edge(2, 0)]);
    assert_eq!(layer.forced_updates(&g), Ok(()));
    assert_eq!(show(&g, layer.bicliques()), ["010|01", "001|10", "000|00"]);
    assert!(!layer.covers(&g));
}

#[test]
fn forced_updates_fail_without_a_choice() {
    let mut g = Bigraph::new(2, 2);
    g.add(Edge(0, 0));
    g.add(Edge(1, 1));
    let mut layer = Layer::initial(&g, 1, &[Edge(0, 0)]);
    assert_eq!(layer.forced_updates(&g), Err(()));
    let g = graph(&SYN);
    let mut layer = Layer::initial(&g, 2, &[Edge(0, 0)]);
    assert_eq!(layer.forced_updates(&g), Err(()));
}

#[test]
fn add_edge_adds_the_missing_ends() {
    let g = graph(&SYN);
    let mut layer = Layer::initial(&g, 2, &[Edge(0, 0)]);
    layer.add_edge(&g, 0, Edge(0, 1));
    assert_eq!(show(&g, layer.bicliques()), ["10000|11000", "00000|00000"]);
    layer.add_edge(&g, 0, Edge(1, 1));
    assert_eq!(show(&g, layer.bicliques()), ["11000|11000", "00000|00000"]);
    layer.add_edge(&g, 1, Edge(4, 4));
    assert_eq!(show(&g, layer.bicliques()), ["11000|11000", "00001|00001"]);
    layer.add_edge(&g, 1, Edge(4, 4));
    assert_eq!(show(&g, layer.bicliques()), ["11000|11000", "00001|00001"]);
}

#[test]
fn add_left_and_right_cover_the_new_edges() {
    let g = graph(&["11", "11"]);
    let mut layer = Layer::initial(&g, 1, &[Edge(0, 0)]);
    assert!(!layer.covers(&g));
    layer.add_right(&g, 0, 1);
    assert_eq!(show(&g, layer.bicliques()), ["10|11"]);
    assert!(!layer.covers(&g));
    layer.add_left(&g, 0, 1);
    assert_eq!(show(&g, layer.bicliques()), ["11|11"]);
    assert!(layer.covers(&g));
}

#[test]
fn sides_are_extended_as_far_as_nothing_is_lost() {
    let g = graph(&SYN);
    let mut layer = Layer::initial(&g, 1, &[Edge(0, 0)]);
    right_maximal(&g, &mut layer, 0);
    assert_eq!(show(&g, layer.bicliques()), ["10000|10010"]);
    left_maximal(&g, &mut layer, 0);
    assert_eq!(show(&g, layer.bicliques()), ["10010|10010"]);
    let mut layer = Layer::initial(&g, 1, &[Edge(0, 0)]);
    left_maximal(&g, &mut layer, 0);
    assert_eq!(show(&g, layer.bicliques()), ["10010|10000"]);
    right_maximal(&g, &mut layer, 0);
    assert_eq!(show(&g, layer.bicliques()), ["10010|10010"]);
}

#[test]
fn restrict_extends_and_fills_in() {
    let g = graph(&["11", "01", "10"]);
    let mut layer = Layer::initial(&g, 3, &[Edge(1, 1), Edge(2, 0)]);
    assert_eq!(restrict_layer(&g, &mut layer), Ok(()));
    assert_eq!(show(&g, layer.bicliques()), ["110|01", "101|10", "100|00"]);
    assert!(layer.covers(&g));

    let g = graph(&SYN);
    let mut layer = Layer::initial(&g, 3, &[Edge(0, 1), Edge(3, 4), Edge(2, 3)]);
    assert_eq!(layer.forced_updates(&g), Ok(()));
    assert_eq!(
        show(&g, layer.bicliques()),
        ["11000|11000", "01011|01011", "10110|10110"]
    );
    assert_eq!(restrict_layer(&g, &mut layer), Ok(()));
    assert_eq!(
        show(&g, layer.bicliques()),
        ["11010|11010", "01011|01011", "10110|10110"]
    );
    assert!(layer.covers(&g));
}

#[test]
fn guess_edge_splits_the_layer() {
    let g = graph(&["11", "01", "10"]);
    let mut layer = Layer::initial(&g, 3, &[Edge(1, 1), Edge(2, 0)]);
    assert_eq!(restrict_layer(&g, &mut layer), Ok(()));

    let child = layer.guess_edge(&g).unwrap();
    assert_eq!(show(&g, child.bicliques()), ["110|01", "101|10", "100|10"]);
    assert_eq!(show(&g, layer.bicliques()), ["110|01", "101|10", "100|00"]);

    let child = layer.guess_edge(&g).unwrap();
    assert_eq!(show(&g, child.bicliques()), ["110|01", "101|10", "100|01"]);
    assert_eq!(show(&g, layer.bicliques()), ["110|01", "101|10", "100|00"]);

    assert!(layer.guess_edge(&g).is_none());
    assert!(layer.guess_edge(&g).is_none());
    assert_eq!(show(&g, layer.bicliques()), ["110|01", "101|10", "100|00"]);
}

#[test]
fn guess_edge_goes_by_index_among_edges_with_at_most_two_choices() {
    // Edge (2, 0) can join the second and the third biclique, edge (2, 1)
    // the third alone; (2, 0) has the smaller index.
    let g = graph(&["001", "100", "110"]);
    let seeds = [Edge(0, 2), Edge(1, 0)];
    let mut layer = Layer::initial(&g, 3, &seeds);
    let child = layer.guess_edge(&g).unwrap();
    assert_eq!(show(&g, child.bicliques()), vec!["100|001", "011|100", "000|000"]);
    assert_eq!(show(&g, layer.bicliques()), vec!["100|001", "010|100", "000|000"]);
}

#[test]
fn guess_from_one_takes_edges_with_a_single_choice_first() {
    let g = graph(&["001", "100", "110"]);
    let seeds = [Edge(0, 2), Edge(1, 0)];
    let mut layer = Layer::initial(&g, 3, &seeds);
    let child = layer.guess_from(&g, 1).unwrap();
    assert_eq!(show(&g, child.bicliques()), vec!["100|001", "010|100", "001|010"]);
    let mut layer = Layer::initial(&g, 3, &seeds);
    let child = layer.guess_from(&g, 2).unwrap();
    assert_eq!(show(&g, child.bicliques()), vec!["100|001", "011|100", "000|000"]);
}

#[test]
fn guess_edge_needs_three_bicliques() {
    let g = graph(&["11", "11"]);
    let mut layer = Layer::initial(&g, 1, &[Edge(0, 0)]);
    assert!(layer.guess_edge(&g).is_none());
    let mut layer = Layer::initial(&g, 0, &[]);
    assert!(layer.guess_edge(&g).is_none());
    // With two bicliques an open flag is left alone.
    let g = graph(&["11"]);
    let mut layer = Layer::initial(&g, 2, &[Edge(0, 0)]);
    layer.add_edge(&g, 0, Edge(0, 1));
    assert!(layer.guess_edge(&g).is_none());
    assert!(layer.covers(&g));
    let mut layer = Layer::initial(&g, 3, &[Edge(0, 0)]);
    layer.add_edge(&g, 0, Edge(0, 1));
    assert!(layer.guess_edge(&g).is_some());
}

#[test]
fn a_copy_of_a_layer_is_its_own() {
    let g = graph(&["11", "11"]);
    let layer = Layer::initial(&g, 1, &[Edge(0, 0)]);
    let mut copy = layer.clone();
    copy.add_edge(&g, 0, Edge(1, 1));
    assert_eq!(show(&g, copy.bicliques()), ["11|11"]);
    assert!(copy.covers(&g));
    assert_eq!(show(&g, layer.bicliques()), ["10|10"]);
    assert!(!layer.covers(&g));
}

#[test]
fn changed_bicliques_are_kept_track_of() {
    let g = graph(&["11", "01", "10"]);
    let mut layer = Layer::initial(&g, 3, &[Edge(1, 1), Edge(2, 0)]);
    assert_eq!(layer.changed_cliques(), [0, 1, 2]);
    assert_eq!(restrict_layer(&g, &mut layer), Ok(()));
    assert_eq!(layer.changed_cliques(), []);
    layer.add_edge(&g, 2, Edge(0, 0));
    assert_eq!(layer.changed_cliques(), [2]);
    layer.add_edge(&g, 2, Edge(0, 0));
    assert_eq!(layer.changed_cliques(), [2]);
    layer.add_left(&g, 0, 0);
    assert_eq!(layer.changed_cliques(), [0, 2]);
    assert_eq!(restrict_layer(&g, &mut layer), Ok(()));
    assert_eq!(layer.changed_cliques(), []);
}
