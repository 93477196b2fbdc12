//! A fixed-order Markov chain over arbitrary tokens: training folds token
//! sequences into a weighted successor graph, generation walks that graph.

pub mod chain;
pub mod followers;
pub mod training;
mod random;
pub mod token;

pub use chain::{ContextLengthError, KeyPosition, MarkovChain};
pub use followers::Followers;
pub use token::Token;
