//! Symbol alphabets, symbolic encoding and symbolic dynamics.

pub mod alphabet;
pub mod dynamics;
pub mod encoding;

pub use alphabet::Alphabet;
pub use dynamics::SymbolicDynamics;
