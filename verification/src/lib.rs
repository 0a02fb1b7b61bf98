//! The core of a minimal GPT: text handling, tokenizer, computation tape,
//! automatic differentiation, the transformer itself, training, sampling and
//! the checkpoint format.
//!
//! The library never touches a number of the model. It lays out *which*
//! arithmetic is to be done, as a tape of operations, and proves that this is
//! the right arithmetic; a caller that owns the numbers runs the tape.

pub mod agreement;
pub mod autograd;
pub mod chain_rule;
pub mod checkpoint;
pub mod config;
pub mod corpus;
pub mod exact;
pub mod first_position;
pub mod flow;
pub mod gpt;
pub mod gradients;
pub mod inference;
pub mod layers;
pub mod numbers;
pub mod operations;
pub mod optimizer;
pub mod params;
pub mod ready;
pub mod round_trip;
pub mod sampler;
pub mod tape;
pub mod text;
pub mod tokenizer;
pub mod train;
pub mod training;
