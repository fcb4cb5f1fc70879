//! Tokenizing, term-frequency indexing and ranking of plain-text documents.

pub mod chars;
pub mod freq;
pub mod index;
pub mod lexer;
pub mod markup;
pub mod rank;
pub mod score;
pub mod search;
