//! A schema compiler for tagged interchange grammars.
//!
//! A specification written in the enhanced dialect (named and documented)
//! is read from a token stream, from tokens or from text, parsed into a
//! tree of declarations and resolved into a validated schema. From the
//! schema come the type definitions, the decoder and the encoder between
//! typed values and generic tagged trees, and the canonical text of the
//! schema in the plain dialect.
//!
//! The stages, each a function with its contract:
//!
//! - [`token`]: text to tokens; [`stream`] and [`host`]: a token stream of
//!   the host to tokens;
//! - [`grammar`] and [`parser`]: tokens to the declaration tree of [`ast`];
//! - [`resolver`]: the declaration tree to the schema, with the names of
//!   [`names`];
//! - [`typedefs`], [`codec`] and [`render`]: the schema to its type
//!   definitions, to decoding and encoding the trees of [`tree`], and to
//!   its canonical text;
//! - [`compiler`]: the stages put together.
//!
//! What holds of the stages whatever the input is proved in
//! [`token_laws`], [`grammar_laws`], [`resolver_laws`], [`codec_laws`] and
//! [`render_laws`]:
//! the resolver refuses equal sibling tags and gives every enumerator its
//! value, decoding what a value encodes to yields the value, and reading
//! the canonical text of a schema yields the schema without its names and
//! its documentation.
//!
//! Text is handled as bytes throughout: a tag, a name and a documentation
//! string are `Vec<u8>`, and every contract speaks of them as `Seq<u8>`.

pub mod ast;
pub mod bytes;
pub mod codec;
pub mod codec_laws;
pub mod compiler;
pub mod grammar;
pub mod grammar_laws;
pub mod host;
pub mod keywords;
pub mod lists;
pub mod names;
pub mod parser;
pub mod render;
pub mod render_laws;
pub mod resolver;
pub mod resolver_laws;
pub mod stream;
pub mod token;
pub mod token_laws;
pub mod tree;
pub mod typedefs;

pub use crate::codec::{decode, encode};
pub use crate::compiler::{a2ml_specification, compile, compile_tokens, generate, read_plain};
pub use crate::parser::parse_specification;
pub use crate::resolver::resolve;
pub use crate::token::{token_offsets, tokenize};
