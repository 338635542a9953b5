//! Deterministic finite automata over a finite alphabet of `char` symbols:
//! evaluation, boolean algebra by product construction, and minimization.

pub mod dfa;
pub mod semantics;
pub mod text;
pub mod minimize;
pub mod algebra;
pub mod dfa_gen;
pub mod codec;
