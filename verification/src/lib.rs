pub mod bignum;
pub mod markov_chain;
pub mod rational;

pub use crate::markov_chain::MarkovChain;
pub use crate::rational::Rational;
