use vstd::prelude::*;
use vstd::string::StringSliceAdditionalSpecFns;
use crate::word::{all_letters, Word, WORD_LENGTH};

verus! {

/// The byte that marks a consumed letter slot of a candidate secret.
pub const BLANK: u8 = 32;

/// How one letter of a guess matched the secret.
#[derive(Copy, Clone, PartialEq, Eq, Structural, Debug)]
pub enum LetterMatch {
    Nothing,
    Partial,
    Exact,
}

/// Why a text is not a feedback code.
#[derive(Copy, Clone, PartialEq, Eq, Structural, Debug)]
pub enum FeedbackError {
    WrongLength,
    InvalidCharacter,
}

/// The feedback for one guess: one match per letter position.
#[derive(Copy, Clone, Debug)]
pub struct GuessResult(pub [LetterMatch; 5]);

impl View for GuessResult {
    type V = Seq<LetterMatch>;

    open spec fn view(&self) -> Seq<LetterMatch> {
        self.0@
    }
}

/// The feedback symbol that a text byte stands for: ' ', 'o' or 'O'.
pub open spec fn match_of_byte(b: u8) -> Option<LetterMatch> {
    if b == 32 {
        Some(LetterMatch::Nothing)
    } else if b == 111 {
        Some(LetterMatch::Partial)
    } else if b == 79 {
        Some(LetterMatch::Exact)
    } else {
        None
    }
}

/// What parsing the bytes of a text as feedback gives.
pub open spec fn feedback_of_bytes(b: Seq<u8>) -> Result<Seq<LetterMatch>, FeedbackError> {
    if b.len() != 5 {
        Err(FeedbackError::WrongLength)
    } else if exists|i: int| 0 <= i < 5 && match_of_byte(#[trigger] b[i]) is None {
        Err(FeedbackError::InvalidCharacter)
    } else {
        Ok(Seq::new(5, |i: int| match_of_byte(b[i])->Some_0))
    }
}

/// Every position marked Exact holds the guessed letter in the secret.
pub open spec fn exact_ok(fb: Seq<LetterMatch>, g: Seq<u8>, s: Seq<u8>) -> bool {
    forall|i: int| 0 <= i < 5 && fb[i] is Exact ==> g[i] == s[i]
}

/// The secret with the slots of the Exact positions consumed.
pub open spec fn blank_exact(fb: Seq<LetterMatch>, s: Seq<u8>) -> Seq<u8> {
    Seq::new(5, |i: int| if fb[i] is Exact { BLANK } else { s[i] })
}

/// The first index at or after `k` where `w` holds `c`, or `w.len()` if none.
pub open spec fn first_index(w: Seq<u8>, c: u8, k: int) -> int
    decreases w.len() - k,
{
    if k >= w.len() {
        w.len() as int
    } else if w[k] == c {
        k
    } else {
        first_index(w, c, k + 1)
    }
}

/// The working copy of the secret after the Partial positions before `i` have each
/// consumed the first free slot holding their letter; `None` once one of them fails,
/// either because its letter is at its own position in the secret (`w0`, the
/// secret with only the Exact slots consumed, still holds it there) or because no
/// free slot holds it.
pub open spec fn partial_state(fb: Seq<LetterMatch>, g: Seq<u8>, w0: Seq<u8>, i: int) -> Option<
    Seq<u8>,
>
    decreases i,
{
    if i <= 0 {
        Some(w0)
    } else {
        match partial_state(fb, g, w0, i - 1) {
            None => None,
            Some(w) => {
                let k = i - 1;
                if !(fb[k] is Partial) {
                    Some(w)
                } else if g[k] == w0[k] {
                    None
                } else {
                    let j = first_index(w, g[k], 0);
                    if j >= 5 {
                        None
                    } else {
                        Some(w.update(j, BLANK))
                    }
                }
            },
        }
    }
}

/// The secret `s` is consistent with feedback `fb` for guess `g`: the Exact
/// positions match, then each Partial position, whose letter must differ from the
/// secret's letter there, consumes a free slot holding it, then no Nothing
/// position's letter is left free.
pub open spec fn possible(fb: Seq<LetterMatch>, g: Seq<u8>, s: Seq<u8>) -> bool {
    &&& exact_ok(fb, g, s)
    &&& match partial_state(fb, g, blank_exact(fb, s), 5) {
        None => false,
        Some(w) => forall|i: int|
            0 <= i < 5 && fb[i] is Nothing ==> !w.contains(#[trigger] g[i]),
    }
}

/// Every guess of the history, paired with its feedback, admits the secret.
pub open spec fn history_possible(gs: Seq<Word>, rs: Seq<GuessResult>, s: Seq<u8>) -> bool {
    forall|k: int| 0 <= k < gs.len() && k < rs.len() ==> possible(#[trigger] rs[k]@, gs[k]@, s)
}

/// Finds the first slot of `w` that holds `c`, or 5.
fn find_letter(w: &[u8; 5], c: u8) -> (r: usize)
    ensures
        r == first_index(w@, c, 0),
{
    let mut k: usize = 0;
    while k < 5
        invariant
            0 <= k <= 5,
            first_index(w@, c, 0) == first_index(w@, c, k as int),
        decreases 5 - k,
    {
        if w[k] == c {
            return k;
        }
        k = k + 1;
    }
    k
}

impl GuessResult {
    /// Parses feedback text: ' ' for no match, 'o' for a partial match, 'O' for an exact one.
    pub fn from_text(s: &str) -> (r: Result<GuessResult, FeedbackError>)
        ensures
            r matches Ok(g) ==> feedback_of_bytes(s.spec_bytes()) == Ok::<
                Seq<LetterMatch>,
                FeedbackError,
            >(g@),
            r matches Err(e) ==> feedback_of_bytes(s.spec_bytes()) == Err::<
                Seq<LetterMatch>,
                FeedbackError,
            >(e),
    {
        let b = s.as_bytes();
        if b.len() != WORD_LENGTH {
            return Err(FeedbackError::WrongLength);
        }
        let mut res = [LetterMatch::Nothing;5];
        let mut i: usize = 0;
        while i < 5
            invariant
                0 <= i <= 5,
                b@ == s.spec_bytes(),
                b@.len() == 5,
                res@.len() == 5,
                forall|j: int| 0 <= j < i ==> match_of_byte(#[trigger] b@[j]) == Some(res@[j]),
            decreases 5 - i,
        {
            let c = b[i];
            if c == 32u8 {
                res[i] = LetterMatch::Nothing;
            } else if c == 111u8 {
                res[i] = LetterMatch::Partial;
            } else if c == 79u8 {
                res[i] = LetterMatch::Exact;
            } else {
                assert(match_of_byte(b@[i as int]) is None);
                return Err(FeedbackError::InvalidCharacter);
            }
            i = i + 1;
        }
        let r = GuessResult(res);
        assert(r@ =~= Seq::new(5, |i: int| match_of_byte(b@[i])->Some_0));
        Ok(r)
    }

    /// Whether `word` can be the secret, given that guessing `guess` gave this feedback.
    pub fn is_possible(&self, guess: Word, word: Word) -> (r: bool)
        ensures
            r == possible(self@, guess@, word@),
    {
        let gb = guess.bytes();
        let wb = word.bytes();
        let mut w = *word.bytes();
        let ghost s = w@;
        let mut i: usize = 0;
        while i < 5
            invariant
                0 <= i <= 5,
                w@.len() == 5,
                s == word@,
                gb@ == guess@,
                forall|j: int| 0 <= j < i ==> (self@[j] is Exact ==> guess@[j] == s[j]),
                forall|j: int|
                    0 <= j < 5 ==> #[trigger] w@[j] == if j < i && self@[j] is Exact {
                        BLANK
                    } else {
                        s[j]
                    },
            decreases 5 - i,
        {
            if self.0[i] == LetterMatch::Exact {
                if gb[i] == w[i] {
                    w[i] = BLANK;
                } else {
                    assert(!exact_ok(self@, guess@, s) && self@[i as int] is Exact);
                    return false;
                }
            }
            i = i + 1;
        }
        assert(w@ =~= blank_exact(self@, s));
        let ghost w0 = w@;
        let mut i: usize = 0;
        while i < 5
            invariant
                0 <= i <= 5,
                w@.len() == 5,
                s == word@,
                gb@ == guess@,
                exact_ok(self@, guess@, s),
                w0 == blank_exact(self@, s),
                s == word@,
                wb@ == word@,
                gb@ == guess@,
                partial_state(self@, guess@, w0, i as int) == Some(w@),
            decreases 5 - i,
        {
            if self.0[i] == LetterMatch::Partial {
                if gb[i] == wb[i] {
                    proof {
                        lemma_failure_stays(self@, guess@, w0, i as int + 1, 5);
                    }
                    return false;
                }
                let idx = find_letter(&w, gb[i]);
                if idx >= 5 {
                    proof {
                        lemma_failure_stays(self@, guess@, w0, i as int + 1, 5);
                    }
                    return false;
                }
                w[idx] = BLANK;
            }
            i = i + 1;
        }
        let mut i: usize = 0;
        while i < 5
            invariant
                0 <= i <= 5,
                w@.len() == 5,
                s == word@,
                gb@ == guess@,
                exact_ok(self@, guess@, s),
                partial_state(self@, guess@, w0, 5) == Some(w@),
                w0 == blank_exact(self@, s),
                forall|j: int| 0 <= j < i && self@[j] is Nothing ==> !w@.contains(#[trigger] guess@[j]),
            decreases 5 - i,
        {
            if self.0[i] == LetterMatch::Nothing {
                let idx = find_letter(&w, gb[i]);
                if idx < 5 {
                    proof {
                        lemma_first_index_found(w@, guess@[i as int], 0);
                        assert(w@.contains(guess@[i as int]));
                    }
                    return false;
                }
                proof {
                    lemma_first_index_absent(w@, guess@[i as int], 0);
                }
            }
            i = i + 1;
        }
        true
    }

    /// Whether `word` can be the secret of a board, given its whole feedback history.
    pub fn history_is_possible(guess_history: &[Word], result_history: &[GuessResult], word: Word) -> (r: bool)
        ensures
            r == history_possible(guess_history@, result_history@, word@),
    {
        let mut k: usize = 0;
        while k < guess_history.len() && k < result_history.len()
            invariant
                forall|j: int| 0 <= j < k && j < guess_history@.len() && j < result_history@.len()
                    ==> possible(#[trigger] result_history@[j]@, guess_history@[j]@, word@),
            decreases guess_history.len() - k,
        {
            if !result_history[k].is_possible(guess_history[k], word) {
                return false;
            }
            k = k + 1;
        }
        true
    }
}

/// Once a Partial position has failed, the partial pass stays failed.
pub proof fn lemma_failure_stays(fb: Seq<LetterMatch>, g: Seq<u8>, w0: Seq<u8>, i: int, n: int)
    requires
        0 <= i <= n,
        partial_state(fb, g, w0, i) is None,
    ensures
        partial_state(fb, g, w0, n) is None,
    decreases n - i,
{
    if i < n {
        lemma_failure_stays(fb, g, w0, i + 1, n);
    }
}

/// When the search finds an index, the slot there holds the letter.
pub proof fn lemma_first_index_found(w: Seq<u8>, c: u8, k: int)
    requires
        0 <= k,
        first_index(w, c, k) < w.len(),
    ensures
        k <= first_index(w, c, k),
        w[first_index(w, c, k)] == c,
    decreases w.len() - k,
{
    if k < w.len() && w[k] != c {
        lemma_first_index_found(w, c, k + 1);
    }
}

/// When the search finds nothing from `k` on, no slot from `k` on holds the letter.
pub proof fn lemma_first_index_absent(w: Seq<u8>, c: u8, k: int)
    requires
        0 <= k,
        first_index(w, c, k) >= w.len(),
    ensures
        forall|j: int| k <= j < w.len() ==> w[j] != c,
    decreases w.len() - k,
{
    if k < w.len() {
        lemma_first_index_absent(w, c, k + 1);
    }
}

/// The feedback for the positions before `i`, and the secret with the slots they
/// consumed blanked: exact matches first consume their own slot; then, left to
/// right, each other position consumes the first free slot holding its letter
/// (Partial), or finds none (Nothing).
pub open spec fn classify_state(g: Seq<u8>, s: Seq<u8>, i: int) -> (Seq<LetterMatch>, Seq<u8>)
    decreases i,
{
    if i <= 0 {
        (Seq::empty(), Seq::new(5, |j: int| if g[j] == s[j] { BLANK } else { s[j] }))
    } else {
        let (fb, w) = classify_state(g, s, i - 1);
        let k = i - 1;
        if g[k] == s[k] {
            (fb.push(LetterMatch::Exact), w)
        } else {
            let j = first_index(w, g[k], 0);
            if j < 5 {
                (fb.push(LetterMatch::Partial), w.update(j, BLANK))
            } else {
                (fb.push(LetterMatch::Nothing), w)
            }
        }
    }
}

/// The feedback that guessing `g` gives when the secret is `s`.
pub open spec fn classify(g: Seq<u8>, s: Seq<u8>) -> Seq<LetterMatch> {
    classify_state(g, s, 5).0
}

/// The feedback that guessing `guess` gives when the secret is `secret`.
pub fn classify_guess(guess: Word, secret: Word) -> (r: GuessResult)
    ensures
        r@ == classify(guess@, secret@),
{
    let g = guess.bytes();
    let s = secret.bytes();
    let mut w = *secret.bytes();
    let mut i: usize = 0;
    while i < 5
        invariant
            0 <= i <= 5,
            g@ == guess@,
            s@ == secret@,
            w@.len() == 5,
            forall|j: int|
                0 <= j < 5 ==> #[trigger] w@[j] == if j < i && g@[j] == s@[j] {
                    BLANK
                } else {
                    s@[j]
                },
        decreases 5 - i,
    {
        if g[i] == s[i] {
            w[i] = BLANK;
        }
        i = i + 1;
    }
    assert(w@ =~= classify_state(guess@, secret@, 0).1);
    let mut res = [LetterMatch::Nothing;5];
    let mut i: usize = 0;
    while i < 5
        invariant
            0 <= i <= 5,
            g@ == guess@,
            s@ == secret@,
            res@.len() == 5,
            w@ == classify_state(guess@, secret@, i as int).1,
            forall|j: int| 0 <= j < i ==> #[trigger] res@[j] == classify_state(guess@, secret@, i as int).0[j],
            classify_state(guess@, secret@, i as int).0.len() == i,
        decreases 5 - i,
    {
        if g[i] == s[i] {
            res[i] = LetterMatch::Exact;
        } else {
            let j = find_letter(&w, g[i]);
            if j < 5 {
                res[i] = LetterMatch::Partial;
                w[j] = BLANK;
            } else {
                res[i] = LetterMatch::Nothing;
            }
        }
        i = i + 1;
    }
    let r = GuessResult(res);
    assert(r@ =~= classify(guess@, secret@));
    r
}

/// The classification of the first `n` positions has `n` entries and a working copy of five slots.
proof fn lemma_classify_len(g: Seq<u8>, s: Seq<u8>, n: int)
    requires
        0 <= n,
        g.len() == 5,
        s.len() == 5,
    ensures
        classify_state(g, s, n).0.len() == n,
        classify_state(g, s, n).1.len() == 5,
    decreases n,
{
    if n > 0 {
        lemma_classify_len(g, s, n - 1);
        let w = classify_state(g, s, n - 1).1;
        lemma_first_index_range(w, g[n - 1], 0);
    }
}

/// The search result lies between the start and the length.
proof fn lemma_first_index_range(w: Seq<u8>, c: u8, k: int)
    requires
        0 <= k <= w.len(),
    ensures
        k <= first_index(w, c, k) <= w.len(),
    decreases w.len() - k,
{
    if k < w.len() && w[k] != c {
        lemma_first_index_range(w, c, k + 1);
    }
}

/// The feedback for the first `i` positions does not change as later positions are classified,
/// and a slot of the working copy only ever changes to a blank.
proof fn lemma_classify_prefix(g: Seq<u8>, s: Seq<u8>, i: int, n: int)
    requires
        0 <= i <= n,
        g.len() == 5,
        s.len() == 5,
    ensures
        classify_state(g, s, n).0.len() == n,
        classify_state(g, s, n).1.len() == 5,
        forall|k: int| 0 <= k < i ==> #[trigger] classify_state(g, s, n).0[k] == classify_state(g, s, i).0[k],
        forall|j: int|
            0 <= j < 5 ==> #[trigger] classify_state(g, s, n).1[j] == classify_state(g, s, i).1[j]
                || classify_state(g, s, n).1[j] == BLANK,
    decreases n,
{
    lemma_classify_len(g, s, n);
    if i < n {
        lemma_classify_prefix(g, s, i, n - 1);
        lemma_classify_len(g, s, n - 1);
        let prev = classify_state(g, s, n - 1);
        let cur = classify_state(g, s, n);
        lemma_first_index_range(prev.1, g[n - 1], 0);
        assert forall|k: int| 0 <= k < i implies #[trigger] cur.0[k] == prev.0[k] by {}
        assert forall|j: int| 0 <= j < 5 implies #[trigger] cur.1[j] == prev.1[j] || cur.1[j] == BLANK by {}
    }
}

/// The working copy before position `k` holds the secret's own letter at `k` or a
/// blank, when `k` is not an exact match.
proof fn lemma_classify_own_slot(g: Seq<u8>, s: Seq<u8>, k: int)
    requires
        0 <= k < 5,
        g.len() == 5,
        s.len() == 5,
    ensures
        classify_state(g, s, k).1[k] == classify_state(g, s, 0).1[k] || classify_state(g, s, k).1[k]
            == BLANK,
{
    lemma_classify_prefix(g, s, 0, k);
}

/// Running the Partial pass over the classified feedback retraces the classification.
proof fn lemma_classify_partial(g: Seq<u8>, s: Seq<u8>, i: int)
    requires
        0 <= i <= 5,
        g.len() == 5,
        s.len() == 5,
        all_letters(g),
    ensures
        partial_state(classify(g, s), g, classify_state(g, s, 0).1, i) == Some(classify_state(g, s, i).1),
    decreases i,
{
    if i > 0 {
        let k = i - 1;
        lemma_classify_partial(g, s, k);
        lemma_classify_prefix(g, s, i, 5);
        lemma_classify_prefix(g, s, k, k);
        lemma_classify_own_slot(g, s, k);
        let w = classify_state(g, s, k).1;
        assert(classify(g, s)[k] == classify_state(g, s, i).0[k]);
        if g[k] != s[k] {
            assert(g[k] != BLANK);
        }
    }
}

/// A secret is always consistent with the feedback it gives.
pub proof fn lemma_classify_possible(g: Seq<u8>, s: Seq<u8>)
    requires
        g.len() == 5,
        s.len() == 5,
        all_letters(g),
    ensures
        possible(classify(g, s), g, s),
{
    let fb = classify(g, s);
    lemma_classify_prefix(g, s, 5, 5);
    assert forall|k: int| 0 <= k < 5 implies (fb[k] is Exact <==> g[k] == s[k]) by {
        lemma_classify_prefix(g, s, k + 1, 5);
        lemma_classify_prefix(g, s, k, k);
    }
    assert(blank_exact(fb, s) =~= classify_state(g, s, 0).1);
    lemma_classify_partial(g, s, 5);
    let w = classify_state(g, s, 5).1;
    assert forall|k: int| 0 <= k < 5 && fb[k] is Nothing implies !w.contains(#[trigger] g[k]) by {
        lemma_classify_prefix(g, s, k + 1, 5);
        lemma_classify_prefix(g, s, k, k);
        lemma_classify_prefix(g, s, k, 5);
        let wk = classify_state(g, s, k).1;
        assert(first_index(wk, g[k], 0) >= 5);
        lemma_first_index_absent(wk, g[k], 0);
        assert(g[k] != BLANK);
        if w.contains(g[k]) {
            let j = choose|j: int| 0 <= j < w.len() && w[j] == g[k];
            assert(w[j] == wk[j] || w[j] == BLANK);
        }
    }
}

} // verus!
