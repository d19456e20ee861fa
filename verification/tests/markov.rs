use lau_information_geometry_agents::chentsov::{InformationGeometryAxioms, MarkovMorphism};

fn row_total(m: &MarkovMorphism, r: usize) -> u32 {
    m.entries[r].iter().map(|&e| e as u32).sum()
}

fn col_total(m: &MarkovMorphism, c: usize) -> u32 {
    m.entries.iter().map(|row| row[c] as u32).sum()
}

#[test]
fn test_identity_entries() {
    let m = MarkovMorphism::identity(3);
    assert_eq!(m.nrows, 3);
    assert_eq!(m.ncols, 3);
    assert_eq!(m.entries, vec![vec![1, 0, 0], vec![0, 1, 0], vec![0, 0, 1]]);
}

#[test]
fn test_identity_empty() {
    let m = MarkovMorphism::identity(0);
    assert_eq!(m.nrows, 0);
    assert_eq!(m.ncols, 0);
    assert!(m.entries.is_empty());
}

#[test]
fn test_identity_doubly_stochastic() {
    let m = MarkovMorphism::identity(4);
    for k in 0..4 {
        assert_eq!(row_total(&m, k), 1);
        assert_eq!(col_total(&m, k), 1);
    }
}

#[test]
fn test_permutation_entries() {
    // row r has its unit at column perm[r]
    let m = MarkovMorphism::permutation(3, &[2, 0, 1]);
    assert_eq!(m.entries, vec![vec![0, 0, 1], vec![1, 0, 0], vec![0, 1, 0]]);
    for k in 0..3 {
        assert_eq!(row_total(&m, k), 1);
        assert_eq!(col_total(&m, k), 1);
    }
}

#[test]
fn test_permutation_short_list_leaves_zero_rows() {
    let m = MarkovMorphism::permutation(3, &[1]);
    assert_eq!(m.entries, vec![vec![0, 1, 0], vec![0, 0, 0], vec![0, 0, 0]]);
}

#[test]
fn test_permutation_repeated_target() {
    let m = MarkovMorphism::permutation(2, &[1, 1]);
    assert_eq!(m.entries, vec![vec![0, 1], vec![0, 1]]);
    assert_eq!(col_total(&m, 0), 0);
    assert_eq!(col_total(&m, 1), 2);
}

#[test]
fn test_merge_later_into_earlier() {
    // merge category 1 into category 0 of a 3-simplex
    let m = MarkovMorphism::merge_categories(3, 0, 1);
    assert_eq!(m.nrows, 2);
    assert_eq!(m.ncols, 3);
    assert_eq!(m.entries, vec![vec![1, 1, 0], vec![0, 0, 1]]);
    // row 0 receives categories 0 and 1
    assert_eq!(row_total(&m, 0), 2);
    assert_eq!(row_total(&m, 1), 1);
    for c in 0..3 {
        assert_eq!(col_total(&m, c), 1);
    }
}

#[test]
fn test_merge_into_later_category() {
    // merge category 0 into category 2 of a 4-simplex: category 2 sits on
    // coarse row 1, and category 0 joins it there
    let m = MarkovMorphism::merge_categories(4, 2, 0);
    assert_eq!(m.entries, vec![vec![0, 1, 0, 0], vec![1, 0, 1, 0], vec![0, 0, 0, 1]]);
    for c in 0..4 {
        assert_eq!(col_total(&m, c), 1);
    }
}

#[test]
fn test_merge_same_category_goes_to_row_zero() {
    let m = MarkovMorphism::merge_categories(3, 1, 1);
    assert_eq!(m.entries, vec![vec![1, 1, 0], vec![0, 0, 1]]);
}

#[test]
fn test_merge_second_into_first_of_two() {
    let m = MarkovMorphism::merge_categories(2, 1, 0);
    assert_eq!(m.entries, vec![vec![1, 1]]);
}

#[test]
fn test_merge_outside_category_goes_to_row_zero() {
    let m = MarkovMorphism::merge_categories(3, 7, 2);
    assert_eq!(m.entries, vec![vec![1, 0, 1], vec![0, 1, 0]]);
}

#[test]
fn test_merge_is_column_stochastic() {
    let m = MarkovMorphism::merge_categories(5, 1, 3);
    assert_eq!(m.entries[0], vec![1, 0, 0, 0, 0]);
    assert_eq!(m.entries[1], vec![0, 1, 0, 1, 0]);
    for c in 0..5 {
        assert_eq!(col_total(&m, c), 1);
    }
    // mass of a probability vector is kept
    let p = [0.1_f64, 0.2, 0.3, 0.25, 0.15];
    let q: Vec<f64> = (0..m.nrows)
        .map(|r| (0..m.ncols).map(|c| m.entries[r][c] as f64 * p[c]).sum())
        .collect();
    let total: f64 = q.iter().sum();
    assert!((total - 1.0).abs() < 1e-12);
    assert!((q[1] - 0.45).abs() < 1e-12);
}

#[test]
fn test_axioms_marker_exists() {
    let _axioms = InformationGeometryAxioms;
}
