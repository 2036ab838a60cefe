//! A small document-indexing engine: tokenizing text, counting terms per
//! document, document frequencies over a corpus, and relevance rankings.
pub mod text;
pub mod lexer;
pub mod frequency;
pub mod corpus;
pub mod ranking;
pub mod members;
pub mod projects;
pub mod apps;
pub mod responses;
