//! A streaming JSON reformatter: a scanner that turns bytes into tokens, an
//! emitter that renders tokens in a compact or an indented style, the
//! transcoder that joins the two, and the coordinator that plans where the
//! result goes and when it may take the place of the input file.
//!
//! Transcoding changes whitespace between tokens and nothing else: keys,
//! strings and numbers leave with the bytes they came with. What that means
//! is stated and proved in `roundtrip` and `whitespace`.

pub mod error;
pub mod lexical;
pub mod token;
pub mod scanner;
pub mod format;
pub mod emitter;
pub mod transcoder;
pub mod position;
pub mod config;
pub mod rewrite;
pub mod document;
pub mod roundtrip;
pub mod whitespace;
pub mod window;
pub mod settled;
