use vstd::prelude::*;
use crate::word::Word;

verus! {

/// The highest total score: every position matched exactly.
pub const MAX_SCORE: u8 = 15;

/// A position's score after one more guess: 3 on an exact match; else raised to 1
/// if the guess holds the secret's letter somewhere; else unchanged.
pub open spec fn position_after(score: u8, letter: u8, guessed: u8, g: Seq<u8>) -> u8 {
    if letter == guessed {
        3
    } else if g.contains(letter) && score < 1 {
        1
    } else {
        score
    }
}

/// The five position scores for secret `w` after one more guess `g`.
pub open spec fn scores_after(sc: Seq<u8>, w: Seq<u8>, g: Seq<u8>) -> Seq<u8> {
    Seq::new(5, |i: int| position_after(sc[i], w[i], g[i], g))
}

/// The position scores after folding in every guess of `hist`, first to last.
pub open spec fn scores_after_all(sc: Seq<u8>, w: Seq<u8>, hist: Seq<Word>) -> Seq<u8>
    decreases hist.len(),
{
    if hist.len() == 0 {
        sc
    } else {
        scores_after(scores_after_all(sc, w, hist.drop_last()), w, hist.last()@)
    }
}

/// The sum of the five position scores.
pub open spec fn total(sc: Seq<u8>) -> int {
    sc[0] + sc[1] + sc[2] + sc[3] + sc[4]
}

/// Five position scores, each 0, 1 or 3.
pub open spec fn scores_wf(sc: Seq<u8>) -> bool {
    &&& sc.len() == 5
    &&& forall|i: int| 0 <= i < 5 ==> (#[trigger] sc[i] == 0 || sc[i] == 1 || sc[i] == 3)
}

/// Every position score of `b` is at least that of `a`.
pub open spec fn dominates(b: Seq<u8>, a: Seq<u8>) -> bool {
    forall|i: int| 0 <= i < 5 ==> #[trigger] b[i] >= a[i]
}

/// How much the guesses so far have revealed of one candidate secret.
#[derive(Copy, Clone, Debug)]
pub struct ScoringState {
    pub word: Word,
    pub score_at_position: [u8; 5],
}

impl ScoringState {
    pub open spec fn scores(&self) -> Seq<u8> {
        self.score_at_position@
    }

    pub open spec fn wf(&self) -> bool {
        scores_wf(self.scores())
    }

    /// The state of a candidate secret before any guess.
    pub fn for_word(word: Word) -> (r: ScoringState)
        ensures
            r.word == word,
            r.scores() == seq![0u8, 0u8, 0u8, 0u8, 0u8],
            r.wf(),
    {
        let r = ScoringState { word, score_at_position: [0u8;5] };
        assert(r.scores() =~= seq![0u8, 0u8, 0u8, 0u8, 0u8]);
        r
    }

    /// Folds one guess into the position scores.
    pub fn add_history_item(&mut self, guess: Word)
        requires
            old(self).wf(),
        ensures
            final(self).word == old(self).word,
            final(self).scores() == scores_after(old(self).scores(), old(self).word@, guess@),
            final(self).wf(),
            dominates(final(self).scores(), old(self).scores()),
            total(final(self).scores()) >= total(old(self).scores()),
    {
        let ghost sc0 = self.scores();
        let ghost target = scores_after(sc0, self.word@, guess@);
        let word = self.word.bytes();
        let g = guess.bytes();
        let mut i: usize = 0;
        while i < 5
            invariant
                0 <= i <= 5,
                word@ == self.word@,
                self.word == old(self).word,
                sc0 == old(self).scores(),
                scores_wf(sc0),
                g@ == guess@,
                g@.len() == 5,
                target == scores_after(sc0, self.word@, guess@),
                self.scores().len() == 5,
                forall|j: int| 0 <= j < i ==> #[trigger] self.scores()[j] == target[j],
                forall|j: int| i <= j < 5 ==> #[trigger] self.scores()[j] == sc0[j],
            decreases 5 - i,
        {
            let letter = word[i];
            if letter == g[i] {
                self.score_at_position[i] = 3;
            } else {
                let mut seen = false;
                let mut k: usize = 0;
                while k < 5
                    invariant
                        0 <= k <= 5,
                        g@.len() == 5,
                        seen <==> exists|m: int| 0 <= m < k && g@[m] == letter,
                    decreases 5 - k,
                {
                    if g[k] == letter {
                        seen = true;
                    }
                    k = k + 1;
                }
                assert(seen <==> g@.contains(letter));
                if seen && self.score_at_position[i] < 1 {
                    self.score_at_position[i] = 1;
                }
            }
            i = i + 1;
        }
        assert(self.scores() =~= target);
    }

    /// Folds each guess of `guesses` into the position scores, first to last.
    pub fn add_history_items(&mut self, guesses: &[Word])
        requires
            old(self).wf(),
        ensures
            final(self).word == old(self).word,
            final(self).scores() == scores_after_all(old(self).scores(), old(self).word@, guesses@),
            final(self).wf(),
    {
        let ghost sc0 = self.scores();
        let mut k: usize = 0;
        while k < guesses.len()
            invariant
                0 <= k <= guesses@.len(),
                self.wf(),
                self.word == old(self).word,
                sc0 == old(self).scores(),
                self.scores() == scores_after_all(sc0, self.word@, guesses@.take(k as int)),
            decreases guesses.len() - k,
        {
            self.add_history_item(guesses[k]);
            proof {
                let t = guesses@.take(k as int + 1);
                assert(t.drop_last() =~= guesses@.take(k as int));
                assert(t.last() == guesses@[k as int]);
            }
            k = k + 1;
        }
        assert(guesses@.take(k as int) =~= guesses@);
    }

    /// The sum of the position scores, from 0 to 15.
    pub fn current_score(&self) -> (r: u8)
        requires
            self.wf(),
        ensures
            r == total(self.scores()),
            r <= MAX_SCORE,
    {
        self.score_at_position[0] + self.score_at_position[1] + self.score_at_position[2]
            + self.score_at_position[3] + self.score_at_position[4]
    }

    /// The position scores.
    pub fn scores_at_positions(&self) -> (r: [u8; 5])
        ensures
            r@ == self.scores(),
    {
        self.score_at_position
    }

    /// The state of `word` after every guess of `history`.
    pub fn of_history(word: Word, history: &[Word]) -> (r: ScoringState)
        ensures
            r.word == word,
            r.wf(),
            r.scores() == scores_after_all(seq![0u8, 0u8, 0u8, 0u8, 0u8], word@, history@),
    {
        let mut s = ScoringState::for_word(word);
        s.add_history_items(history);
        s
    }

    /// The total score this state would have after one more guess.
    pub fn score_after(&self, guess: Word) -> (r: u8)
        requires
            self.wf(),
        ensures
            r == total(scores_after(self.scores(), self.word@, guess@)),
            r <= MAX_SCORE,
    {
        let mut s = *self;
        s.add_history_item(guess);
        s.current_score()
    }
}

/// Folding more guesses into a state never lowers a position score, nor the total.
pub proof fn lemma_scores_monotone(sc: Seq<u8>, w: Seq<u8>, hist: Seq<Word>)
    requires
        scores_wf(sc),
    ensures
        scores_wf(scores_after_all(sc, w, hist)),
        dominates(scores_after_all(sc, w, hist), sc),
        total(scores_after_all(sc, w, hist)) >= total(sc),
    decreases hist.len(),
{
    if hist.len() > 0 {
        lemma_scores_monotone(sc, w, hist.drop_last());
        let mid = scores_after_all(sc, w, hist.drop_last());
        let last = scores_after_all(sc, w, hist);
        assert(last == scores_after(mid, w, hist.last()@));
        assert forall|i: int| 0 <= i < 5 implies last[i] >= mid[i] && (#[trigger] last[i] == 0
            || last[i] == 1 || last[i] == 3) by {
            assert(mid[i] == 0 || mid[i] == 1 || mid[i] == 3);
        }
    }
}

} // verus!
