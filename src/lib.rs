//! Indexing pipeline of a document search tool: a tokenizer over character
//! buffers, text extraction from markup documents, per-document term
//! frequencies and a corpus-wide index with a flat snapshot form.

pub mod corpus;
pub mod keyed;
pub mod lexer;
pub mod markup;
pub mod termfreq;
