//! The scorer: empty-input edge cases, ASCII-only case normalisation, and
//! the integer components of the final score.

use vstd::prelude::*;

use crate::chars::lower;
use crate::chars::lower_chars;
use crate::chars::str_chars;
use crate::matching::as_usize_opt;
use crate::matching::compute_match_length;
use crate::matching::match_length;

verus! {

/// The outcome of scoring a candidate against a query.
///
/// The floating-point score the callers rank by is a function of this value
/// alone: `EmptyQuery` stands for `1.0`, `NoMatch` for `0.0`, and `Matched`
/// for `(query_len / match_length) / choice_len`.
#[derive(Clone, Copy, Debug, PartialEq, Eq, Structural)]
pub enum Score {
    /// The query is empty: it matches everything, maximally.
    EmptyQuery,
    /// The choice is empty while the query is not, or the query's characters
    /// do not occur in order inside the choice.
    NoMatch,
    /// The query matches; the score's components, all counted in characters
    /// of the lowercased strings.
    Matched {
        /// The length of the query.
        query_len: usize,
        /// The length of the shortest greedy match span inside the choice.
        match_length: usize,
        /// The length of the whole choice.
        choice_len: usize,
    },
}

/// What `score` returns, over the character sequences of its inputs.
pub open spec fn score_spec(choice: Seq<char>, query: Seq<char>) -> Score {
    if query.len() == 0 {
        Score::EmptyQuery
    } else if choice.len() == 0 {
        Score::NoMatch
    } else {
        match match_length(lower(choice), lower(query)) {
            Some(l) => Score::Matched {
                query_len: query.len() as usize,
                match_length: l as usize,
                choice_len: choice.len() as usize,
            },
            None => Score::NoMatch,
        }
    }
}

/// Score `choice` against `query`: lowercase both (ASCII-only), find the
/// shortest greedy in-order match of the query's characters inside the
/// choice, and return the components of the relevance score.
pub fn score(choice: &str, query: &str) -> (r: Score)
    ensures
        r == score_spec(choice@, query@),
{
    let query_chars = str_chars(query);
    if query_chars.len() == 0 {
        return Score::EmptyQuery;
    }
    let choice_chars = str_chars(choice);
    if choice_chars.len() == 0 {
        return Score::NoMatch;
    }
    let lower_choice = lower_chars(choice_chars.as_slice());
    let lower_query = lower_chars(query_chars.as_slice());
    let r = compute_match_length(lower_choice.as_slice(), lower_query.as_slice());
    proof {
        assert(r == as_usize_opt(match_length(lower(choice@), lower(query@))));
    }
    match r {
        Some(l) => Score::Matched {
            query_len: query_chars.len(),
            match_length: l,
            choice_len: choice_chars.len(),
        },
        None => Score::NoMatch,
    }
}

} // verus!
