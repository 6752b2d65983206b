//! Narrowing a set of fixed-length candidate words from per-letter feedback.
//!
//! A [`CandidateSet`] holds the words that are still possible. Feedback on a
//! guess is classified into tiles ([`classify`]), the tiles are applied to
//! the set as filters ([`apply_tiles`]), and the remaining candidates are
//! ranked by how common their letters are ([`recommend`]). A [`Session`]
//! ties these together behind a small command language
//! ([`parse_command`]).
//!
//! Every function states what it returns over plain sequences of
//! characters, and the statements are proved. So are the laws that relate
//! the functions: narrowing never adds a word, narrowing twice by the same
//! tiles is narrowing once, filters commute, a letter that a guess marks is
//! never banned outright, and the recommendation is a candidate that
//! depends on the set alone.

pub mod candidates;
pub mod command;
pub mod engine;
pub mod error;
pub mod recommend;
pub mod session;
pub mod sieve;
pub mod text;
pub mod tile;

pub use candidates::{
    dictionary_entries, prune, prune_at, require, require_at, CandidateSet, Constraint,
};
pub use command::{parse_command, parse_digits, parse_number, Command};
pub use engine::{apply_guess, apply_tiles, marked_letters, prune_letters, require_letters};
pub use error::{CommandError, Error};
pub use recommend::{in_order, letter_counts, recommend, score, LetterCounts, Recommendation};
pub use session::{Reply, Session};
pub use text::{find, has_letter, is_space, same_text, split_once, to_lowercase, trim};
pub use tile::{classify, Tile};
