use bicliques::covers::containment::{
    contains, contains_reject, contains_slow, copy_cliques, Containment, Entry,
};
use bicliques::{Biclique, Bigraph, Edge};
use tindex::TBitSet;

fn clique(left: &[u32], right: &[u32]) -> Biclique {
    Biclique {
        left: left.iter().copied().collect::<TBitSet<u32>>(),
        right: right.iter().copied().collect::<TBitSet<u32>>(),
    }
}

fn graph(rows: &[&str]) -> Bigraph {
    let mut g = Bigraph::new(rows.len() as u32, rows[0].len() as u32);
    for (x, row) in rows.iter().enumerate() {
        for (y, c) in row.chars().enumerate() {
            if c == '1' {
                g.add(Edge(x as u32, y as u32));
            }
        }
    }
    g
}

const SYN: [&str; 5] = ["11110", "11011", "10110", "11111", "01011"];

fn a() -> Biclique {
    clique(&[1, 3, 4], &[1, 3, 4])
}

fn b() -> Biclique {
    clique(&[0, 2, 3], &[0, 2, 3])
}

fn c() -> Biclique {
    clique(&[0, 1, 3], &[0, 1, 3])
}

#[test]
fn entry_puts_maximal_first_and_empty_last() {
    let g = graph(&SYN);
    let entry = Entry::new(
        &g,
        vec![
            Biclique::empty(),
            b(),
            clique(&[0], &[0]),
            a(),
            Biclique::empty(),
            clique(&[3], &[1]),
        ],
    );
    assert!(entry.maximal() == [a(), b()]);
    assert!(entry.tail() == [clique(&[0], &[0]), clique(&[3], &[1])]);
    assert_eq!(entry.empty(), 2);
}

#[test]
fn entry_of_nothing() {
    let g = graph(&SYN);
    let entry = Entry::new(&g, vec![]);
    assert!(entry.maximal().is_empty());
    assert!(entry.tail().is_empty());
    assert_eq!(entry.empty(), 0);
    assert!(contains(&[], &entry));
    assert!(contains(&[a()], &entry));
}

#[test]
fn maximal_bicliques_must_be_there_as_they_are() {
    let g = graph(&SYN);
    let entry = Entry::new(&g, vec![a(), b()]);
    assert!(contains_reject(&[b(), a()], &entry));
    assert!(contains_reject(&[c(), b(), a()], &entry));
    assert!(!contains_reject(&[a(), c()], &entry));
    assert!(!contains_reject(&[a()], &entry));
    assert!(!contains_reject(&[], &entry));
    assert!(contains(&[b(), a()], &entry));
    assert!(!contains(&[a(), c()], &entry));
}

#[test]
fn other_bicliques_must_lie_within_some_biclique() {
    let g = graph(&SYN);
    let entry = Entry::new(&g, vec![a(), clique(&[0], &[0]), Biclique::empty()]);
    assert!(contains_reject(&[a(), clique(&[0, 3], &[0])], &entry));
    assert!(contains_reject(&[a(), b()], &entry));
    assert!(!contains_reject(&[a(), clique(&[3], &[0])], &entry));
    assert!(!contains_reject(&[a(), Biclique::empty()], &entry));
    assert!(contains(&[a(), b()], &entry));
    assert!(!contains(&[a(), clique(&[3], &[0])], &entry));
}

#[test]
fn other_bicliques_need_a_biclique_each() {
    let g = graph(&SYN);
    let entry = Entry::new(&g, vec![clique(&[0], &[0]), clique(&[3], &[0])]);
    // One biclique holds both, but can stand for one of them only.
    let one = [clique(&[0, 3], &[0]), Biclique::empty()];
    assert!(contains_reject(&one, &entry));
    assert!(!contains_slow(&one, &entry));
    assert!(!contains(&one, &entry));
    let two = [clique(&[0, 3], &[0]), clique(&[2, 3], &[0])];
    assert!(contains_slow(&two, &entry));
    assert!(contains(&two, &entry));
    let crossed = [clique(&[3], &[0, 1]), clique(&[0, 3], &[0])];
    assert!(contains(&crossed, &entry));
    // A maximal biclique may stand for another biclique as well.
    let entry = Entry::new(&g, vec![b(), clique(&[0], &[0])]);
    assert!(contains_slow(&[b()], &entry));
    assert!(contains(&[b()], &entry));
}

#[test]
fn copies_have_the_same_members() {
    let copy = copy_cliques(&[a(), Biclique::empty(), b()]);
    assert!(copy == [a(), Biclique::empty(), b()]);
    assert!(copy_cliques(&[]).is_empty());
}

#[test]
fn store_discards_what_contains_a_stored_cover() {
    let g = graph(&SYN);
    let root = [clique(&[0], &[0]), Biclique::empty()];
    let mut store = Containment::init(&g, &root);
    assert!(!store.should_discard(&g, &[b(), a()]));

    // The search goes into a layer and leaves it again.
    let first = [b(), clique(&[4], &[4])];
    assert!(store.start_layer(&g, &first));
    store.finish_layer(&g, vec![b(), a()]);

    // What was stored are the bicliques that the layer had at first.
    assert!(store.should_discard(&g, &[b(), a()]));
    assert!(store.should_discard(&g, &[clique(&[4], &[3, 4]), b()]));
    assert!(!store.should_discard(&g, &[b(), c()]));
    assert!(!store.should_discard(&g, &[a(), c()]));
    assert!(!store.start_layer(&g, &[b(), a()]));
    assert!(store.start_layer(&g, &[b(), c()]));
    store.finish_layer(&g, vec![b(), c()]);
    assert!(store.should_discard(&g, &[b(), c()]));
    assert!(store.should_discard(&g, &[b(), a()]));

    // Leaving the first layer puts its bicliques in place of all that.
    store.finish_layer(&g, vec![b(), c()]);
    assert!(store.should_discard(&g, &[b(), c()]));
    assert!(store.should_discard(&g, &[c(), a()]));
    assert!(!store.should_discard(&g, &[a(), clique(&[4], &[4])]));
}

#[test]
fn store_does_not_count_empty_bicliques() {
    let g = graph(&SYN);
    let mut store = Containment::init(&g, &[b(), clique(&[4], &[4])]);
    store.finish_layer(&g, vec![b(), a()]);
    assert!(store.should_discard(&g, &[b(), a()]));
    // More empty bicliques than the stored cover has do not matter.
    assert!(store.should_discard(&g, &[b(), a(), Biclique::empty()]));
    assert!(!store.should_discard(&g, &[b(), Biclique::empty(), Biclique::empty()]));
    // A maximal biclique stands for itself and for what lies within it.
    store.reinit(&g, &[b(), clique(&[0], &[0])]);
    store.finish_layer(&g, vec![b(), clique(&[0], &[0])]);
    assert!(store.should_discard(&g, &[b(), Biclique::empty()]));
    assert!(store.should_discard(&g, &[Biclique::empty(), b()]));
    assert!(!store.should_discard(&g, &[a(), Biclique::empty()]));
}

#[test]
fn store_is_empty_at_first() {
    let g = graph(&SYN);
    let mut store = Containment::init(&g, &[b(), a()]);
    assert!(!store.should_discard(&g, &[b(), a()]));
    assert!(!store.should_discard(&g, &[]));
    store.finish_layer(&g, vec![b(), a()]);
    store.reinit(&g, &[b(), a()]);
    assert!(!store.should_discard(&g, &[b(), a()]));
}
