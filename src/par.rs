use vstd::prelude::*;
use rayon::iter::{IndexedParallelIterator, IntoParallelRefIterator, ParallelIterator};
use crate::feedback::{history_possible, GuessResult};
use crate::scoring::{scores_after, scores_after_all, total, ScoringState};
use crate::word::Word;

verus! {

/// The sum, over the states of `p`, of the total score after one more guess `g`.
pub open spec fn total_after(p: Seq<ScoringState>, g: Seq<u8>) -> int
    decreases p.len(),
{
    if p.len() == 0 {
        0
    } else {
        total_after(p.drop_last(), g) + total(scores_after(p.last().scores(), p.last().word@, g))
    }
}

/// Relies on rayon's `par_iter().map(..).collect_into_vec(..)`: the vector holds the
/// image of each item, in the items' order.
#[verifier::external_body]
pub(crate) fn par_states(words: &Vec<Word>, history: &[Word]) -> (r: Vec<ScoringState>)
    ensures
        r@.len() == words@.len(),
        forall|i: int|
            0 <= i < r@.len() ==> (#[trigger] r@[i]).word == words@[i] && r@[i].wf()
                && r@[i].scores() == scores_after_all(
                seq![0u8, 0u8, 0u8, 0u8, 0u8],
                words@[i]@,
                history@,
            ),
{
    let mut out = Vec::new();
    words.par_iter().map(|w| ScoringState::of_history(*w, history)).collect_into_vec(&mut out);
    out
}

/// Relies on rayon's `par_iter().map(..).collect_into_vec(..)`: the vector holds the
/// image of each item, in the items' order.
#[verifier::external_body]
pub(crate) fn par_possible(pool: &Vec<ScoringState>, guesses: &[Word], results: &[GuessResult]) -> (r: Vec<bool>)
    ensures
        r@.len() == pool@.len(),
        forall|i: int|
            0 <= i < r@.len() ==> #[trigger] r@[i] == history_possible(
                guesses@,
                results@,
                pool@[i].word@,
            ),
{
    let mut out = Vec::new();
    pool.par_iter().map(|s| GuessResult::history_is_possible(guesses, results, s.word)).collect_into_vec(&mut out);
    out
}

/// Relies on rayon's `par_iter().map(..).sum()`: the sum of the images of the items.
#[verifier::external_body]
pub(crate) fn par_total_after(pool: &Vec<ScoringState>, guess: Word) -> (r: u64)
    requires
        pool@.len() < 0x1000_0000_0000_0000,
        forall|i: int| 0 <= i < pool@.len() ==> (#[trigger] pool@[i]).wf(),
    ensures
        r == total_after(pool@, guess@),
{
    pool.par_iter().map(|s| s.score_after(guess)).map(u64::from).sum::<u64>()
}

} // verus!
