//! A character-level Markov-chain text model: it learns, for every context of
//! a fixed number of preceding tokens, how often each token followed it, and
//! generates new text by weighted random draws from those counts.

pub mod token;
pub mod sampler;
pub mod model;
pub mod laws;

pub use model::{Generation, MarkovTextModel};
pub use sampler::TokenSampler;
pub use token::Token;
