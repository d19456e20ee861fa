//! Statistical manifolds: concrete parametric families of distributions.
//!
//! Each family is identified by its parameterisation; what the library
//! proves of it here is the dimension of its parameter space θ.

use vstd::prelude::*;

verus! {

/// Normal distribution N(μ, σ²) parameterised by θ = (μ, log σ).
#[derive(Debug, Clone)]
pub struct NormalManifold;

impl NormalManifold {
    pub fn new() -> (m: Self)
        ensures
            m == NormalManifold,
    {
        NormalManifold
    }

    /// θ = (μ, log σ) has two coordinates.
    pub fn dimension(&self) -> (d: usize)
        ensures
            d == 2,
    {
        2
    }
}

impl Default for NormalManifold {
    fn default() -> (m: Self)
        ensures
            m == NormalManifold,
    {
        NormalManifold::new()
    }
}

/// Normal distribution with diagonal covariance in `k` dimensions,
/// θ = (μ₁, …, μₖ, log σ₁, …, log σₖ).
#[derive(Debug, Clone)]
pub struct DiagonalNormalManifold {
    pub k: usize,
}

impl DiagonalNormalManifold {
    pub fn new(k: usize) -> (m: Self)
        ensures
            m.k == k,
    {
        DiagonalNormalManifold { k }
    }

    /// One mean and one log-scale per coordinate: 2k parameters.
    pub fn dimension(&self) -> (d: usize)
        requires
            2 * self.k <= usize::MAX,
        ensures
            d == 2 * self.k,
    {
        2 * self.k
    }
}

/// Categorical distribution on `k` classes, parameterised by the softmax
/// logits of the first k − 1 classes (the last class is anchored at 0).
#[derive(Debug, Clone)]
pub struct CategoricalManifold {
    pub k: usize,
}

impl CategoricalManifold {
    /// A categorical family needs at least two classes.
    pub fn new(k: usize) -> (m: Self)
        requires
            k >= 2,
        ensures
            m.k == k,
    {
        CategoricalManifold { k }
    }

    /// k − 1 free logits.
    pub fn dimension(&self) -> (d: usize)
        requires
            self.k >= 1,
        ensures
            d == self.k - 1,
    {
        self.k - 1
    }
}

/// Exponential distribution with rate λ, θ = log λ.
#[derive(Debug, Clone)]
pub struct ExponentialManifold;

impl ExponentialManifold {
    pub fn new() -> (m: Self)
        ensures
            m == ExponentialManifold,
    {
        ExponentialManifold
    }

    pub fn dimension(&self) -> (d: usize)
        ensures
            d == 1,
    {
        1
    }
}

impl Default for ExponentialManifold {
    fn default() -> (m: Self)
        ensures
            m == ExponentialManifold,
    {
        ExponentialManifold::new()
    }
}

/// Poisson distribution with rate λ, θ = log λ.
#[derive(Debug, Clone)]
pub struct PoissonManifold;

impl PoissonManifold {
    pub fn new() -> (m: Self)
        ensures
            m == PoissonManifold,
    {
        PoissonManifold
    }

    pub fn dimension(&self) -> (d: usize)
        ensures
            d == 1,
    {
        1
    }
}

impl Default for PoissonManifold {
    fn default() -> (m: Self)
        ensures
            m == PoissonManifold,
    {
        PoissonManifold::new()
    }
}

/// Beta distribution B(α, β), θ = (log α, log β).
#[derive(Debug, Clone)]
pub struct BetaManifold;

impl BetaManifold {
    pub fn new() -> (m: Self)
        ensures
            m == BetaManifold,
    {
        BetaManifold
    }

    pub fn dimension(&self) -> (d: usize)
        ensures
            d == 2,
    {
        2
    }
}

impl Default for BetaManifold {
    fn default() -> (m: Self)
        ensures
            m == BetaManifold,
    {
        BetaManifold::new()
    }
}

/// Gamma distribution Γ(α, β) with shape α and rate β, θ = (log α, log β).
#[derive(Debug, Clone)]
pub struct GammaManifold;

impl GammaManifold {
    pub fn new() -> (m: Self)
        ensures
            m == GammaManifold,
    {
        GammaManifold
    }

    pub fn dimension(&self) -> (d: usize)
        ensures
            d == 2,
    {
        2
    }
}

impl Default for GammaManifold {
    fn default() -> (m: Self)
        ensures
            m == GammaManifold,
    {
        GammaManifold::new()
    }
}

} // verus!
