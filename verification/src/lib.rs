//! A lexer generator: declarative token rules are compiled into a flat
//! finite-state transition table, and a runtime scanner drives that table
//! over input text to produce a stream of classified tokens with source
//! positions.

pub mod builder;
pub mod compile;
pub mod fsa;
pub mod laws;
pub mod lexer;
pub mod rule;

pub use fsa::Action;
pub use fsa::Match;
pub use lexer::Lexer;
pub use lexer::Token;
pub use compile::generate_fsa_for_token;
pub use builder::BuildError;
pub use builder::build_lexer;
pub use rule::LexerRule;
pub use rule::state_count;
