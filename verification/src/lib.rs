//! Type encodings: a compact textual grammar for native data types, with a
//! structured model, a scanner and validator over strings, an equivalence
//! check between trees and strings, and a two-pass renderer.
//!
//! * [`encoding`] holds the tree, [`shape`] what a tree denotes and its
//!   canonical text, [`primitive`] the codes without parts.
//! * [`scan`] finds the end of the first encoding in a text; [`parse`]
//!   classifies, takes apart and validates texts; [`str_encoding`] reads
//!   encodings that are held as text and compares them with trees.
//! * [`inverse`] says which canonical texts the parser reads back.
//! * [`static_encoding_str`] and [`static_int_str`] render into fixed-size
//!   byte arrays, length first; [`display`] renders into an owned string.
//! * [`comparison_result`] holds the three-way result of a comparison.
//! * [`text`] holds what these share about bytes and UTF-8.

pub mod comparison_result;
pub mod display;
pub mod encoding;
pub mod eq;
pub mod fields;
pub mod inverse;
pub mod parse;
pub mod primitive;
pub mod scan;
pub mod shape;
pub mod static_encoding_str;
pub mod static_int_str;
pub mod str_encoding;
pub mod text;

pub use crate::encoding::Encoding;
pub use crate::parse::{is_valid, ParseResult};
pub use crate::primitive::Primitive;
pub use crate::scan::chomp;
pub use crate::str_encoding::{StrEncoding, StrFields, StrPointerEncoding, StrStructEncoding};
