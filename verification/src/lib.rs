//! An in-memory key-value store spoken to over a small text protocol.
//!
//! The library holds the protocol's grammar (`parse`) with its laws on
//! incomplete buffers (`prefixes`) and on whole connections (`session`), the
//! encoding of replies (`encode`), the store that executes commands (`store`),
//! the decimal numerals that both directions of the protocol use (`decimal`),
//! and the text that shows a request to people (`text`).

mod bytes;
pub mod decimal;
pub mod encode;
pub mod parse;
pub mod prefixes;
pub mod session;
pub mod state;
pub mod store;
pub mod text;
mod table;
