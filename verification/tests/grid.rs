use bicliques::grid::{from_str, GridError};
use bicliques::Edge;

#[test]
fn grid_is_read_row_by_row() {
    let g = from_str("2 3\n1 0 _\n_ 1 1\n").unwrap();
    assert_eq!(g.left(), 2);
    assert_eq!(g.right(), 3);
    assert_eq!(g.entries(), vec![Edge(0, 0), Edge(1, 1), Edge(1, 2)]);
}

#[test]
fn blanks_of_any_kind_separate_tokens() {
    let g = from_str("\t 3\r\n2 1\x0c0  0 1\n\n1   1").unwrap();
    assert_eq!(g.left(), 3);
    assert_eq!(g.right(), 2);
    assert_eq!(g.entries(), vec![Edge(0, 0), Edge(1, 1), Edge(2, 0), Edge(2, 1)]);
}

#[test]
fn grid_without_cells() {
    let g = from_str("0 0").unwrap();
    assert_eq!((g.left(), g.right()), (0, 0));
    let g = from_str(" 4 0 ").unwrap();
    assert_eq!((g.left(), g.right()), (4, 0));
    assert!(g.entries().is_empty());
    let g = from_str("0 7").unwrap();
    assert_eq!((g.left(), g.right()), (0, 7));
    let g = from_str("007 00").unwrap();
    assert_eq!((g.left(), g.right()), (7, 0));
}

#[test]
fn sizes_must_be_there() {
    assert_eq!(from_str("").unwrap_err(), GridError::MissingSize);
    assert_eq!(from_str("  \n ").unwrap_err(), GridError::MissingSize);
    assert_eq!(from_str("3").unwrap_err(), GridError::MissingSize);
    assert_eq!(from_str("x").unwrap_err(), GridError::MissingSize);
}

#[test]
fn sizes_must_be_numbers() {
    assert_eq!(from_str("a 2").unwrap_err(), GridError::BadSize);
    assert_eq!(from_str("2 b 1 1").unwrap_err(), GridError::BadSize);
    assert_eq!(from_str("-1 2").unwrap_err(), GridError::BadSize);
    assert_eq!(from_str("1.5 2").unwrap_err(), GridError::BadSize);
    assert_eq!(from_str("4294967296 1").unwrap_err(), GridError::BadSize);
    assert_eq!(from_str("1 99999999999999999999").unwrap_err(), GridError::BadSize);
    assert_eq!(from_str("4294967295 0").unwrap().left(), u32::MAX);
}

#[test]
fn sizes_must_fit_a_graph() {
    assert_eq!(from_str("1 4294967295").unwrap_err(), GridError::TooLarge);
    assert_eq!(from_str("0 2147483649").unwrap_err(), GridError::TooLarge);
}

#[test]
fn cells_must_be_there() {
    assert_eq!(from_str("2 2 1 0 1").unwrap_err(), GridError::MissingCell);
    assert_eq!(from_str("1 1").unwrap_err(), GridError::MissingCell);
}

#[test]
fn cells_must_be_flags() {
    assert_eq!(from_str("2 2 1 0 2 1").unwrap_err(), GridError::BadCell);
    assert_eq!(from_str("2 2 1 0 11 1").unwrap_err(), GridError::BadCell);
    assert_eq!(from_str("1 1 x").unwrap_err(), GridError::BadCell);
    // The first thing that is wrong is told.
    assert_eq!(from_str("2 2 1 x").unwrap_err(), GridError::BadCell);
    assert_eq!(from_str("2 2 1 0 1 1 x").unwrap_err(), GridError::TrailingInput);
}

#[test]
fn nothing_may_follow_the_cells() {
    assert_eq!(from_str("1 2 1 0 1").unwrap_err(), GridError::TrailingInput);
    assert_eq!(from_str("0 0 0").unwrap_err(), GridError::TrailingInput);
    assert!(from_str("1 2 1 0 \n\t ").is_ok());
}
