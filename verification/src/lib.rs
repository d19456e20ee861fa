//! Information geometry for agent belief spaces.
//!
//! The verified part of the library: the parametric families that form the
//! statistical manifolds (their constructors and parameter-space dimensions),
//! and the combinatorial structure of the Markov morphisms under which
//! Chentsov's theorem asks the Fisher metric to be invariant.

pub mod manifold;
pub mod chentsov;
