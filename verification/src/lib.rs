//! Token-stream input for parsers: lexing on demand, bounded lookahead caching,
//! checkpoints and transactions for backtracking, resource-limit latching, and
//! recovery by synchronization.
use vstd::prelude::*;

pub mod span;
pub mod token;
pub mod error;
pub mod state;
pub mod lexer;
pub mod emitter;
pub mod cache;
pub mod recovery;
pub mod input;
pub mod transaction;
pub mod parse_choice;

verus! {
} // verus!
