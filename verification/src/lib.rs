//! A grammar-configurable lexical scanner: keywords, named single-character
//! symbols and delimited sections are supplied at construction time, and a
//! byte buffer is turned into a sequence of classified, located tokens.

pub mod text;
pub mod number;
pub mod search;
pub mod token;
pub mod grammar;
pub mod position;
pub mod scan;
pub mod engine;
pub mod guarantees;

pub use engine::ScanError;
pub use grammar::{Lexer, Section, StartOrSection, Value};
pub use token::{Loc, Mismatch, Shape, Token};
