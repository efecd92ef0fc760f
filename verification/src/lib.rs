//! Arguments of a command: a text is cut into tokens at delimiter characters, with double
//! quotes keeping a run of characters together, and the tokens are read, one after the other
//! or by search, as values of the types asked for.
pub mod args;
pub mod equality;
pub mod error;
pub mod iter;
pub mod laws;
pub mod lexer;
pub mod number;
pub mod parse;
pub mod search;
pub mod text;
pub mod token;

pub use args::Args;
pub use error::Error;
pub use iter::{Iter, IterQuoted};
pub use parse::FromText;
