use bicliques::{Biclique, Bigraph, Edge};
use tindex::TBitSet;

fn clique(left: &[u32], right: &[u32]) -> Biclique {
    Biclique {
        left: left.iter().copied().collect::<TBitSet<u32>>(),
        right: right.iter().copied().collect::<TBitSet<u32>>(),
    }
}

fn graph(rows: &[&str]) -> Bigraph {
    let mut g = Bigraph::new(rows.len() as u32, rows[0].len() as u32);
    for (x, row) in rows.iter().enumerate() {
        for (y, c) in row.chars().enumerate() {
            if c == '1' {
                g.add(Edge(x as u32, y as u32));
            }
        }
    }
    g
}

#[test]
fn new_graph_has_no_edges() {
    let g = Bigraph::new(3, 5);
    assert_eq!(g.left(), 3);
    assert_eq!(g.right(), 5);
    for x in 0..3 {
        for y in 0..5 {
            assert!(!g.get(Edge(x, y)));
        }
    }
    assert!(g.entries().is_empty());
}

#[test]
fn add_makes_one_edge() {
    let mut g = Bigraph::new(3, 5);
    g.add(Edge(1, 4));
    for x in 0..3 {
        for y in 0..5 {
            assert_eq!(g.get(Edge(x, y)), (x, y) == (1, 4));
        }
    }
    assert_eq!(g.left(), 3);
    assert_eq!(g.right(), 5);
}

#[test]
fn add_twice_is_add_once() {
    let mut g = Bigraph::new(2, 2);
    g.add(Edge(1, 0));
    g.add(Edge(1, 0));
    assert_eq!(g.entries(), vec![Edge(1, 0)]);
}

#[test]
fn edge_index_is_shift_and_offset() {
    // Five right vertices need a stride of eight.
    let g = Bigraph::new(4, 5);
    assert_eq!(g.edge_index(Edge(0, 0)), 0);
    assert_eq!(g.edge_index(Edge(0, 4)), 4);
    assert_eq!(g.edge_index(Edge(1, 0)), 8);
    assert_eq!(g.edge_index(Edge(3, 4)), 28);
    // A power of two is its own stride.
    let g = Bigraph::new(4, 4);
    assert_eq!(g.edge_index(Edge(1, 0)), 4);
    assert_eq!(g.edge_index(Edge(3, 3)), 15);
    // One right vertex, or none, has a stride of one.
    let g = Bigraph::new(4, 1);
    assert_eq!(g.edge_index(Edge(3, 0)), 3);
}

#[test]
fn edge_index_round_trip() {
    for right in 1..=9u32 {
        let g = Bigraph::new(5, right);
        for x in 0..5 {
            for y in 0..right {
                let e = Edge(x, y);
                assert_eq!(g.edge_from_index(g.edge_index(e)), e);
            }
        }
    }
}

#[test]
fn edge_from_index_is_shift_and_mask() {
    let g = Bigraph::new(4, 5);
    assert_eq!(g.edge_from_index(0), Edge(0, 0));
    assert_eq!(g.edge_from_index(12), Edge(1, 4));
    assert_eq!(g.edge_from_index(31), Edge(3, 7));
}

#[test]
fn can_hold_knows_the_limits() {
    assert!(Bigraph::can_hold(0, 0));
    assert!(Bigraph::can_hold(6, 6));
    assert!(Bigraph::can_hold(u32::MAX, 1));
    assert!(Bigraph::can_hold(1, 0x8000_0000));
    assert!(!Bigraph::can_hold(1, 0x8000_0001));
    assert!(!Bigraph::can_hold(0, u32::MAX));
    assert_eq!(
        Bigraph::can_hold(u32::MAX, 0x8000_0000),
        (u32::MAX as u128) << 31 <= usize::MAX as u128
    );
}

#[test]
fn entries_go_by_index() {
    let g = graph(&["011", "100", "101"]);
    assert_eq!(
        g.entries(),
        vec![Edge(0, 1), Edge(0, 2), Edge(1, 0), Edge(2, 0), Edge(2, 2)]
    );
}

#[test]
fn entries_of_one_side() {
    let g = graph(&["011", "100", "101"]);
    assert_eq!(g.left_entries(0), vec![Edge(0, 1), Edge(0, 2)]);
    assert_eq!(g.left_entries(1), vec![Edge(1, 0)]);
    assert_eq!(g.right_entries(0), vec![Edge(1, 0), Edge(2, 0)]);
    assert_eq!(g.right_entries(1), vec![Edge(0, 1)]);
    assert_eq!(g.right_entries(2), vec![Edge(0, 2), Edge(2, 2)]);
}

#[test]
fn from_rows() {
    let g = Bigraph::from([[false, true, true], [true, false, false]]);
    assert_eq!(g.left(), 2);
    assert_eq!(g.right(), 3);
    assert_eq!(g.entries(), vec![Edge(0, 1), Edge(0, 2), Edge(1, 0)]);
    let none = Bigraph::from([[false; 0]; 0]);
    assert_eq!(none.left(), 0);
    assert_eq!(none.right(), 0);
}

#[test]
fn may_share_needs_both_crossings() {
    let g = graph(&["110", "011", "001"]);
    // (0,0) and (1,1): crossings (0,1) and (1,0).
    assert!(!g.may_share(Edge(0, 0), Edge(1, 1)));
    // (0,1) and (1,2): crossings (0,2) and (1,1).
    assert!(!g.may_share(Edge(0, 1), Edge(1, 2)));
    // (0,0) and (0,1): crossings (0,1) and (0,0).
    assert!(g.may_share(Edge(0, 0), Edge(0, 1)));
    // (1,1) and (1,2) share a row.
    assert!(g.may_share(Edge(1, 1), Edge(1, 2)));
}

#[test]
fn may_share_is_symmetric_and_reflexive() {
    let g = graph(&["1101", "0110", "1011", "0001"]);
    let edges = g.entries();
    for &a in &edges {
        assert!(g.may_share(a, a));
        for &b in &edges {
            assert_eq!(g.may_share(a, b), g.may_share(b, a));
        }
    }
}

#[test]
fn may_add_looks_at_both_sides() {
    let g = graph(&["110", "011", "001"]);
    let c = clique(&[0], &[0, 1]);
    assert!(g.may_add(&c, Edge(0, 0)));
    // Left vertex 1 is not joined to right vertex 0.
    assert!(!g.may_add(&c, Edge(1, 1)));
    // Right vertex 2 is not joined to left vertex 0.
    assert!(!g.may_add(&c, Edge(0, 2)));
    let c = clique(&[1], &[1]);
    assert!(g.may_add(&c, Edge(1, 2)));
    assert!(g.may_add(&c, Edge(0, 1)));
    assert!(!g.may_add(&c, Edge(2, 2)));
}

#[test]
fn any_pair_may_join_an_empty_biclique() {
    let g = graph(&["110", "011", "001"]);
    for x in 0..3 {
        for y in 0..3 {
            assert!(g.may_add(&Biclique::empty(), Edge(x, y)));
        }
    }
}

#[test]
fn is_maximal_checks_both_sides() {
    let g = graph(&["110", "011", "001"]);
    assert!(g.is_maximal(&clique(&[0], &[0, 1])));
    assert!(g.is_maximal(&clique(&[0, 1], &[1])));
    assert!(g.is_maximal(&clique(&[1, 2], &[2])));
    assert!(g.is_maximal(&clique(&[1], &[1, 2])));
    // Right vertex 1 can be added.
    assert!(!g.is_maximal(&clique(&[0], &[0])));
    // Left vertex 0 can be added.
    assert!(!g.is_maximal(&clique(&[1], &[1])));
}

#[test]
fn empty_biclique_is_maximal_only_without_edges() {
    assert!(!graph(&["110", "011"]).is_maximal(&Biclique::empty()));
    assert!(!graph(&["00", "01"]).is_maximal(&Biclique::empty()));
    assert!(Bigraph::new(2, 2).is_maximal(&Biclique::empty()));
    assert!(Bigraph::new(0, 2).is_maximal(&Biclique::empty()));
    assert!(Bigraph::new(0, 0).is_maximal(&Biclique::empty()));
    // A biclique with a vertex is held to the rule for vertices.
    assert!(!Bigraph::new(2, 2).is_maximal(&clique(&[0], &[])));
    assert!(Bigraph::new(2, 0).is_maximal(&clique(&[0, 1], &[])));
}

#[test]
fn biclique_members() {
    let c = clique(&[4, 1, 70], &[3]);
    assert_eq!(c.left(), vec![1, 4, 70]);
    assert_eq!(c.right(), vec![3]);
    assert!(c.contains(Edge(70, 3)));
    assert!(!c.contains(Edge(3, 70)));
    assert!(!c.contains(Edge(1, 4)));
    assert!(!c.is_empty());
    assert!(Biclique::empty().is_empty());
    assert!(!clique(&[], &[1]).is_empty());
    assert!(!clique(&[1], &[]).is_empty());
    assert!(Biclique::empty().left().is_empty());
}

#[test]
fn biclique_within_biclique() {
    let big = clique(&[1, 2, 3], &[0, 5]);
    assert!(big.contains_clique(&clique(&[1, 3], &[5])));
    assert!(big.contains_clique(&big.clone()));
    assert!(big.contains_clique(&Biclique::empty()));
    assert!(!big.contains_clique(&clique(&[1, 4], &[5])));
    assert!(!big.contains_clique(&clique(&[1], &[5, 6])));
    assert!(!Biclique::empty().contains_clique(&clique(&[1], &[])));
}

#[test]
fn biclique_equality_and_copies() {
    let a = clique(&[1, 2], &[0]);
    let mut b = clique(&[2, 1, 200], &[0]);
    assert!(a != b);
    b.left.remove(200);
    assert!(a == b);
    assert!(a.clone() == a);
    assert!(a != clique(&[1, 2], &[1]));
    assert!(Biclique::empty() == clique(&[], &[]));
}
