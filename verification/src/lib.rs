//! A small GPT-style chat model: tokenization, generation and the rules of a chat server.
//!
//! Everything here is a matter of bytes, tokens, positions and shapes, and is verified.
//! Floating point arithmetic, files and the network are left to the programs that use
//! the library.
use vstd::prelude::*;

pub mod assets;
pub mod chat;
pub mod check_points;
pub mod engine;
pub mod model;
pub mod pool;
pub mod reply;
pub mod sampling;
pub mod session;
pub mod source;
pub mod stream;
pub mod temperature;
pub mod text;
pub mod tokenizer;
pub mod worker;

verus! {

/// The number of a token.
pub type TokenId = u32;

/// The number of a token, as far as it says which tokens are merged first.
pub type Rank = TokenId;

} // verus!
