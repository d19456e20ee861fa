use lau_information_geometry_agents::manifold::{
    BetaManifold, CategoricalManifold, DiagonalNormalManifold, ExponentialManifold,
    GammaManifold, NormalManifold, PoissonManifold,
};

#[test]
fn test_diagonal_normal_dimension() {
    let m = DiagonalNormalManifold::new(3);
    assert_eq!(m.dimension(), 6);
}

#[test]
fn test_diagonal_normal_zero_dimension() {
    let m = DiagonalNormalManifold::new(0);
    assert_eq!(m.k, 0);
    assert_eq!(m.dimension(), 0);
}

#[test]
fn test_categorical_new_keeps_classes() {
    let m = CategoricalManifold::new(5);
    assert_eq!(m.k, 5);
    assert_eq!(m.dimension(), 4);
}

#[test]
fn test_categorical_two_classes_one_logit() {
    let m = CategoricalManifold::new(2);
    assert_eq!(m.dimension(), 1);
}

#[test]
fn test_fixed_family_dimensions() {
    assert_eq!(NormalManifold::new().dimension(), 2);
    assert_eq!(ExponentialManifold::new().dimension(), 1);
    assert_eq!(PoissonManifold::new().dimension(), 1);
    assert_eq!(BetaManifold::new().dimension(), 2);
    assert_eq!(GammaManifold::new().dimension(), 2);
}

#[test]
fn test_defaults_match_new() {
    assert_eq!(NormalManifold::default().dimension(), 2);
    assert_eq!(ExponentialManifold::default().dimension(), 1);
    assert_eq!(PoissonManifold::default().dimension(), 1);
    assert_eq!(BetaManifold::default().dimension(), 2);
    assert_eq!(GammaManifold::default().dimension(), 2);
}
