//! A fuzzy string-matching scorer.
//!
//! Given a candidate string (`choice`) and a user-typed query, the library
//! finds the shortest in-order occurrence of the query's characters inside
//! the candidate and reduces it to the integer components of a relevance
//! score: callers divide `query_len / match_length / choice_len` to obtain
//! the final floating-point value.

mod chars;
mod laws;
mod matching;
mod scoring;

pub use chars::lower_char_exec;
pub use chars::lower_chars;
pub use chars::str_chars;
pub use matching::compute_match_length;
pub use matching::find_char_in_string;
pub use matching::find_end_of_match;
pub use matching::find_from_offset;
pub use scoring::score;
pub use scoring::Score;
