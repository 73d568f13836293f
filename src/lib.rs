//! Picks the next guess in a game of many simultaneous five-letter word puzzles
//! that share one stream of guesses: words, a front-coded dictionary format and
//! its decoder, the feedback model, a scoring heuristic, and the candidate pools
//! from which a guess is chosen.

use vstd::prelude::*;

pub mod word;
pub mod feedback;
pub mod scoring;
pub mod dict;
pub mod par;
pub mod select;
pub mod compile;

verus! {

} // verus!
