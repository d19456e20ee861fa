# lau-information-geometry-agents

Information geometry for agent belief spaces: Fisher metric, geodesics,
natural gradient, Amari's dual connections and Chentsov's theorem.

- `src/` is the library verified with Verus: the parametric families
  (normal, diagonal normal, categorical, exponential, Poisson, beta, gamma)
  with the dimensions of their parameter spaces, and the Markov morphisms
  (identity, permutation, merging two categories) built exactly as 0/1
  matrices, with proofs of which of them are row- or column-stochastic
  (merging keeps the mass of every category).
- `app/` is the numerical layer in f64 on top of it (densities, scores,
  Fisher matrices, Fisher–Rao distances, natural gradient, α-connections,
  curvature, Jeffreys prior, monotonicity, belief agents), built on
  `nalgebra`, `serde` and `rand`.
- `tests/` exercises the verified library.
