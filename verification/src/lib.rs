//! A scanner for whitespace-separated input: tokens are read in stream
//! order, across line breaks, as integers, text, vectors, matrices and
//! adjacency lists.
//!
//! [`Scanner`] reads input that is held in memory. [`TokenQueue`] is its
//! queue of pending tokens alone, for callers who bring the lines themselves.
//! Every read has a contract over the state of the scanner and the stream of
//! tokens that it stands for (`model`), and the laws that hold of all inputs
//! and all sequences of reads are proved in `laws`.

pub mod error;
pub mod graph;
pub mod integers;
pub mod laws;
pub mod lines;
pub mod model;
pub mod parse;
pub mod queue;
pub mod scanner;
pub mod std_text;
pub mod tokens;
pub mod whitespace;

pub use error::ScanError;
pub use parse::FromToken;
pub use queue::TokenQueue;
pub use scanner::Scanner;
