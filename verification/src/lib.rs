//! Fuzzy lookups in a dictionary of keys stored as a finite state transducer (`fst`),
//! with typo tolerance measured by Levenshtein automata.

pub mod order;
pub mod edit;
pub mod text;
pub mod topk;
pub mod backend;
pub mod error;
pub mod dictionary;
pub mod search;
pub mod sort;

pub use dictionary::{Dictionary, DictionaryBuilder};
pub use error::DictionaryError;
pub use search::{SearchBuilder, SearchResult};
pub use topk::BestMatches;
