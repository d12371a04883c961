use bicliques::order::{biclique_ord, bitset_ord, Rank};
use bicliques::Biclique;
use std::cmp::Ordering;
use tindex::TBitSet;

fn set(items: &[u32]) -> TBitSet<u32> {
    items.iter().copied().collect()
}

fn clique(left: &[u32], right: &[u32]) -> Biclique {
    Biclique { left: set(left), right: set(right) }
}

#[test]
fn sets_compare_like_numbers() {
    assert_eq!(bitset_ord(&set(&[]), &set(&[])), Rank::Same);
    assert_eq!(bitset_ord(&set(&[0, 2]), &set(&[2, 0])), Rank::Same);
    assert_eq!(bitset_ord(&set(&[]), &set(&[0])), Rank::Below);
    assert_eq!(bitset_ord(&set(&[0]), &set(&[])), Rank::Above);
    // The largest member decides.
    assert_eq!(bitset_ord(&set(&[0, 1, 2]), &set(&[3])), Rank::Below);
    assert_eq!(bitset_ord(&set(&[3]), &set(&[0, 1, 2])), Rank::Above);
    // With the same largest member the next one decides.
    assert_eq!(bitset_ord(&set(&[0, 2]), &set(&[1, 2])), Rank::Below);
    assert_eq!(bitset_ord(&set(&[1, 2]), &set(&[0, 2])), Rank::Above);
    // A set comes before the set that has one smaller member more.
    assert_eq!(bitset_ord(&set(&[5]), &set(&[0, 5])), Rank::Below);
    assert_eq!(bitset_ord(&set(&[0, 100]), &set(&[100])), Rank::Above);
}

#[test]
fn set_order_is_a_total_order() {
    let sets: Vec<Vec<u32>> = (0..16u32)
        .map(|bits| (0..4).filter(|i| bits & (1 << i) != 0).collect())
        .collect();
    for (i, a) in sets.iter().enumerate() {
        for (j, b) in sets.iter().enumerate() {
            // Sets of small numbers are ordered as the numbers whose bits they are.
            let expected = match i.cmp(&j) {
                Ordering::Less => Rank::Below,
                Ordering::Equal => Rank::Same,
                Ordering::Greater => Rank::Above,
            };
            assert_eq!(bitset_ord(&set(a), &set(b)), expected);
        }
    }
}

#[test]
fn greater_biclique_goes_first() {
    let a = clique(&[0, 2], &[0]);
    let b = clique(&[0, 1], &[1]);
    assert_eq!(biclique_ord(&a, &b), Ordering::Less);
    assert_eq!(biclique_ord(&b, &a), Ordering::Greater);
    assert_eq!(biclique_ord(&a, &a.clone()), Ordering::Equal);
    // The right sides decide where the left sides are the same.
    let c = clique(&[0, 2], &[1]);
    assert_eq!(biclique_ord(&c, &a), Ordering::Less);
    assert_eq!(biclique_ord(&a, &c), Ordering::Greater);
    assert_eq!(biclique_ord(&Biclique::empty(), &a), Ordering::Greater);
}
