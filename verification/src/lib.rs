//! A solver for a Wordle-style word-guessing puzzle.
//!
//! Given a target word and a word bank, the solver repeatedly picks a
//! candidate word, records per-character feedback in a knowledge store,
//! and iterates until the guess equals the target.

pub mod rank;
pub mod select;
pub mod session;
pub mod store;
pub mod words;

pub use store::CharacterStatus;
pub use store::KnowledgeStore;
