//! Markov models: D-Markov machines, their states and the counts behind
//! transition matrices.

pub mod d_markov;
pub mod state;

pub use d_markov::DMarkovMachine;
pub use state::State;
pub mod transitions;
