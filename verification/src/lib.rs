//! Core logic of an experimental Chinese input method: the token-to-word
//! dictionary, the incremental sentence decoder, the input session, the
//! candidate listing and the terminal front end's decisions.

pub mod utils;
pub mod sentence_models;
pub mod dict;
pub mod text;
pub mod context;
pub mod word_models;
pub mod frontend;
pub mod lex;
pub mod listing;
