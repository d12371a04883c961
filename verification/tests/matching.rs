use bicliques::covers::matching::solve_superset;
use tindex::TBitSet;

fn sets(all: &[&[usize]]) -> Vec<TBitSet<usize>> {
    all.iter().map(|s| s.iter().copied().collect()).collect()
}

#[test]
fn nothing_to_pick_from_nothing() {
    assert!(solve_superset(sets(&[])));
}

#[test]
fn empty_set_has_no_pick() {
    assert!(!solve_superset(sets(&[&[]])));
    assert!(!solve_superset(sets(&[&[1, 2], &[]])));
    assert!(!solve_superset(sets(&[&[], &[1, 2], &[3, 4]])));
}

#[test]
fn single_members_are_settled() {
    assert!(solve_superset(sets(&[&[3]])));
    assert!(solve_superset(sets(&[&[0], &[1], &[2]])));
    assert!(!solve_superset(sets(&[&[0], &[0]])));
    assert!(solve_superset(sets(&[&[0, 1], &[0]])));
    assert!(solve_superset(sets(&[&[0], &[0, 1], &[0, 1, 2]])));
    assert!(!solve_superset(sets(&[&[0], &[0, 1], &[1]])));
    assert!(!solve_superset(sets(&[&[5], &[5, 6], &[6, 7], &[7]])));
}

#[test]
fn picks_are_searched_for() {
    assert!(solve_superset(sets(&[&[0, 1], &[0, 1]])));
    assert!(!solve_superset(sets(&[&[0, 1], &[0, 1], &[0, 1]])));
    assert!(solve_superset(sets(&[&[0, 1], &[1, 2], &[0, 2]])));
    assert!(solve_superset(sets(&[&[0, 1, 2], &[0, 1], &[0, 1]])));
    assert!(!solve_superset(sets(&[&[0, 1], &[0, 1], &[0, 1], &[2, 3]])));
    assert!(solve_superset(sets(&[&[0, 1], &[0, 1], &[1, 2, 3], &[2, 3]])));
    assert!(solve_superset(sets(&[&[70, 1], &[1, 200]])));
}
