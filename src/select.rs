use vstd::prelude::*;
use crate::dict::{decode_blob, other_words, wordles, Dictionaries};
use crate::feedback::{history_possible, GuessResult};
use crate::par::{par_possible, par_states, par_total_after, total_after};
use crate::scoring::{scores_after_all, total, ScoringState, MAX_SCORE};
use crate::word::Word;

verus! {

/// Why no guess can be picked.
#[derive(Copy, Clone, PartialEq, Eq, Structural, Debug)]
pub enum SelectError {
    /// Fewer boards remain than there are visible feedback histories.
    InsufficientRemaining,
    /// A visible feedback history is not as long as the guess history.
    HistoryLengthMismatch,
    /// There is no word to guess.
    NoCandidateGuess,
}

/// The total score of secret `w` after the guesses `hist`.
pub open spec fn score_of(w: Seq<u8>, hist: Seq<Word>) -> int {
    total(scores_after_all(seq![0u8, 0u8, 0u8, 0u8, 0u8], w, hist))
}

/// The words of a list of words.
pub open spec fn words_of(v: Seq<Word>) -> Seq<Seq<u8>> {
    v.map_values(|w: Word| w@)
}

/// The candidate secrets of a pool of states.
pub open spec fn pool_words(p: Seq<ScoringState>) -> Seq<Seq<u8>> {
    p.map_values(|s: ScoringState| s.word@)
}

/// Each state of the pool holds the scores of its word after the guesses `hist`.
pub open spec fn pool_exact(p: Seq<ScoringState>, hist: Seq<Word>) -> bool {
    forall|i: int|
        0 <= i < p.len() ==> (#[trigger] p[i]).wf() && p[i].scores() == scores_after_all(
            seq![0u8, 0u8, 0u8, 0u8, 0u8],
            p[i].word@,
            hist,
        )
}

/// The secrets that the guesses `hist` have not fully revealed.
pub open spec fn unsolved_words(ws: Seq<Seq<u8>>, hist: Seq<Word>) -> Seq<Seq<u8>> {
    ws.filter(|w: Seq<u8>| score_of(w, hist) < MAX_SCORE)
}

/// The unsolved secrets consistent with one visible board's feedback history `v`.
pub open spec fn visible_words(ws: Seq<Seq<u8>>, hist: Seq<Word>, v: Seq<GuessResult>) -> Seq<
    Seq<u8>,
> {
    unsolved_words(ws, hist).filter(|w: Seq<u8>| history_possible(hist, v, w))
}

/// The highest score among the words `ws`, or 15 when there is none.
pub open spec fn board_cap(ws: Seq<Seq<u8>>, hist: Seq<Word>) -> int
    decreases ws.len(),
{
    if ws.len() == 0 {
        MAX_SCORE as int
    } else if ws.len() == 1 {
        score_of(ws[0], hist)
    } else {
        let m = board_cap(ws.drop_last(), hist);
        let s = score_of(ws.last(), hist);
        if s > m {
            s
        } else {
            m
        }
    }
}

/// The lowest board cap over the visible boards `vs`, or 15 when there is none.
pub open spec fn cap(ws: Seq<Seq<u8>>, hist: Seq<Word>, vs: Seq<Vec<GuessResult>>) -> int
    decreases vs.len(),
{
    if vs.len() == 0 {
        MAX_SCORE as int
    } else {
        let m = cap(ws, hist, vs.drop_last());
        let c = board_cap(visible_words(ws, hist, vs.last()@), hist);
        if c < m {
            c
        } else {
            m
        }
    }
}

/// The candidate secrets of the boards whose feedback is not seen: the unsolved
/// words, bounded by the tightest visible board.
pub open spec fn invisible_words(ws: Seq<Seq<u8>>, hist: Seq<Word>, vs: Seq<Vec<GuessResult>>) -> Seq<
    Seq<u8>,
> {
    if vs.len() == 0 {
        unsolved_words(ws, hist)
    } else {
        unsolved_words(ws, hist).filter(|w: Seq<u8>| score_of(w, hist) <= cap(ws, hist, vs))
    }
}

/// Whether every visible history has as many entries as there are guesses.
pub open spec fn lengths_match(hist: Seq<Word>, vs: Seq<Vec<GuessResult>>) -> bool {
    forall|k: int| 0 <= k < vs.len() ==> (#[trigger] vs[k])@.len() == hist.len()
}

/// The candidate populations from which a guess is chosen.
#[derive(Clone, Debug)]
pub struct Pools {
    /// One pool per visible board, of the secrets consistent with its feedback.
    pub visible: Vec<Vec<ScoringState>>,
    /// The pool that stands for each board whose feedback is not seen.
    pub invisible: Vec<ScoringState>,
    /// How many boards remain whose feedback is not seen.
    pub n_invisible: usize,
}

/// Adding the element at `k` to a filtered prefix.
proof fn lemma_filter_step<A>(s: Seq<A>, k: int, p: spec_fn(A) -> bool)
    requires
        0 <= k < s.len(),
    ensures
        s.take(k + 1).filter(p) == if p(s[k]) {
            s.take(k).filter(p).push(s[k])
        } else {
            s.take(k).filter(p)
        },
{
    reveal(Seq::filter);
    assert(s.take(k + 1).drop_last() =~= s.take(k));
}

proof fn lemma_filter_empty<A>(s: Seq<A>, p: spec_fn(A) -> bool)
    ensures
        s.take(0).filter(p) == Seq::<A>::empty(),
{
    reveal(Seq::filter);
    assert(s.take(0) =~= Seq::<A>::empty());
}

/// The states of the answer words that the guesses have not fully revealed.
pub fn unsolved_states(answers: &Vec<Word>, hist: &[Word]) -> (r: Vec<ScoringState>)
    ensures
        pool_words(r@) == unsolved_words(words_of(answers@), hist@),
        pool_exact(r@, hist@),
        r@.len() <= answers@.len(),
{
    let states = par_states(answers, hist);
    let ghost ws = words_of(answers@);
    let ghost pred = |w: Seq<u8>| score_of(w, hist@) < MAX_SCORE;
    let mut out: Vec<ScoringState> = Vec::new();
    let mut k: usize = 0;
    proof {
        lemma_filter_empty(ws, pred);
    }
    while k < states.len()
        invariant
            0 <= k <= states@.len() == answers@.len() == ws.len(),
            ws == words_of(answers@),
            pred == (|w: Seq<u8>| score_of(w, hist@) < MAX_SCORE),
            forall|i: int|
                0 <= i < states@.len() ==> (#[trigger] states@[i]).word == answers@[i]
                    && states@[i].wf() && states@[i].scores() == scores_after_all(
                    seq![0u8, 0u8, 0u8, 0u8, 0u8],
                    answers@[i]@,
                    hist@,
                ),
            pool_words(out@) == ws.take(k as int).filter(pred),
            pool_exact(out@, hist@),
            out@.len() <= k,
        decreases states.len() - k,
    {
        let s = states[k];
        proof {
            lemma_filter_step(ws, k as int, pred);
            ws.take(k as int).lemma_filter_len(pred);
        }
        if s.current_score() < MAX_SCORE {
            let ghost o = out@;
            out.push(s);
            assert(pool_words(out@) =~= pool_words(o).push(s.word@));
        }
        k = k + 1;
    }
    assert(ws.take(k as int) =~= ws);
    out
}

/// The states of `pool` whose word is consistent with one board's feedback history.
pub fn possible_states(pool: &Vec<ScoringState>, hist: &[Word], results: &[GuessResult]) -> (r: Vec<
    ScoringState,
>)
    requires
        pool_exact(pool@, hist@),
    ensures
        pool_words(r@) == pool_words(pool@).filter(|w: Seq<u8>| history_possible(hist@, results@, w)),
        pool_exact(r@, hist@),
        r@.len() <= pool@.len(),
{
    let mask = par_possible(pool, hist, results);
    let ghost ws = pool_words(pool@);
    let ghost pred = |w: Seq<u8>| history_possible(hist@, results@, w);
    let mut out: Vec<ScoringState> = Vec::new();
    let mut k: usize = 0;
    proof {
        lemma_filter_empty(ws, pred);
    }
    while k < pool.len()
        invariant
            0 <= k <= pool@.len() == mask@.len() == ws.len(),
            ws == pool_words(pool@),
            pool_exact(pool@, hist@),
            pred == (|w: Seq<u8>| history_possible(hist@, results@, w)),
            forall|i: int|
                0 <= i < mask@.len() ==> #[trigger] mask@[i] == history_possible(
                    hist@,
                    results@,
                    pool@[i].word@,
                ),
            pool_words(out@) == ws.take(k as int).filter(pred),
            pool_exact(out@, hist@),
            out@.len() <= k,
        decreases pool.len() - k,
    {
        proof {
            lemma_filter_step(ws, k as int, pred);
        }
        if mask[k] {
            let ghost o = out@;
            out.push(pool[k]);
            assert(pool_words(out@) =~= pool_words(o).push(pool@[k as int].word@));
        }
        k = k + 1;
    }
    assert(ws.take(k as int) =~= ws);
    out
}

/// The highest total score in the pool, or 15 for an empty pool.
pub fn pool_cap(pool: &Vec<ScoringState>, hist: &[Word]) -> (r: u8)
    requires
        pool_exact(pool@, hist@),
    ensures
        r == board_cap(pool_words(pool@), hist@),
{
    if pool.len() == 0 {
        return MAX_SCORE;
    }
    let ghost ws = pool_words(pool@);
    let mut best = pool[0].current_score();
    let mut k: usize = 1;
    proof {
        assert(ws.take(1).drop_last().len() == 0);
    }
    while k < pool.len()
        invariant
            1 <= k <= pool@.len(),
            ws == pool_words(pool@),
            pool_exact(pool@, hist@),
            best == board_cap(ws.take(k as int), hist@),
        decreases pool.len() - k,
    {
        let s = pool[k].current_score();
        proof {
            assert(ws.take(k as int + 1).drop_last() =~= ws.take(k as int));
        }
        if s > best {
            best = s;
        }
        k = k + 1;
    }
    assert(ws.take(k as int) =~= ws);
    best
}

/// Keeps the states of `pool` whose total score is at most `bound`.
pub fn states_at_most(pool: &Vec<ScoringState>, hist: &[Word], bound: u8) -> (r: Vec<ScoringState>)
    requires
        pool_exact(pool@, hist@),
    ensures
        pool_words(r@) == pool_words(pool@).filter(|w: Seq<u8>| score_of(w, hist@) <= bound),
        pool_exact(r@, hist@),
        r@.len() <= pool@.len(),
{
    let ghost ws = pool_words(pool@);
    let ghost pred = |w: Seq<u8>| score_of(w, hist@) <= bound;
    let mut out: Vec<ScoringState> = Vec::new();
    let mut k: usize = 0;
    proof {
        lemma_filter_empty(ws, pred);
    }
    while k < pool.len()
        invariant
            0 <= k <= pool@.len() == ws.len(),
            ws == pool_words(pool@),
            pool_exact(pool@, hist@),
            pred == (|w: Seq<u8>| score_of(w, hist@) <= bound),
            pool_words(out@) == ws.take(k as int).filter(pred),
            pool_exact(out@, hist@),
            out@.len() <= k,
        decreases pool.len() - k,
    {
        proof {
            lemma_filter_step(ws, k as int, pred);
        }
        if pool[k].current_score() <= bound {
            let ghost o = out@;
            out.push(pool[k]);
            assert(pool_words(out@) =~= pool_words(o).push(pool@[k as int].word@));
        }
        k = k + 1;
    }
    assert(ws.take(k as int) =~= ws);
    out
}

/// What building the pools gives for the answer words `ws`, the guesses `hist`,
/// the visible feedback histories `vs` and `n` remaining boards: an error exactly
/// when the state is invalid, and otherwise each pool exactly.
pub open spec fn pools_spec(
    ws: Seq<Seq<u8>>,
    hist: Seq<Word>,
    vs: Seq<Vec<GuessResult>>,
    n: usize,
    r: Result<Pools, SelectError>,
) -> bool {
    &&& (r == Err::<Pools, SelectError>(SelectError::InsufficientRemaining)) <==> n < vs.len()
    &&& (r == Err::<Pools, SelectError>(SelectError::HistoryLengthMismatch)) <==> (n >= vs.len()
        && !lengths_match(hist, vs))
    &&& r is Ok <==> (n >= vs.len() && lengths_match(hist, vs))
    &&& r matches Ok(p) ==> {
        &&& p.n_invisible == n - vs.len()
        &&& p.visible@.len() == vs.len()
        &&& forall|k: int|
            0 <= k < p.visible@.len() ==> pool_words(#[trigger] p.visible@[k]@) == visible_words(
                ws,
                hist,
                vs[k]@,
            ) && pool_exact(p.visible@[k]@, hist)
        &&& pool_words(p.invisible@) == invisible_words(ws, hist, vs)
        &&& pool_exact(p.invisible@, hist)
    }
}

/// Two pools with the same words, each scored exactly, gain the same from any guess.
pub proof fn lemma_total_after_by_words(p1: Seq<ScoringState>, p2: Seq<ScoringState>, hist: Seq<Word>, g: Seq<u8>)
    requires
        pool_words(p1) == pool_words(p2),
        pool_exact(p1, hist),
        pool_exact(p2, hist),
    ensures
        total_after(p1, g) == total_after(p2, g),
    decreases p1.len(),
{
    assert(p1.len() == pool_words(p1).len());
    assert(p2.len() == pool_words(p2).len());
    if p1.len() > 0 {
        let n = p1.len() - 1;
        assert(pool_words(p1.drop_last()) =~= pool_words(p1).drop_last());
        assert(pool_words(p2.drop_last()) =~= pool_words(p2).drop_last());
        assert(pool_words(p1)[n] == pool_words(p2)[n]);
        assert(p1[n].scores() == p2[n].scores());
        lemma_total_after_by_words(p1.drop_last(), p2.drop_last(), hist, g);
    }
}

/// The same game state always gives the same outcome: the same error, or pools
/// of the same size whose candidates gain the same from every guess.
pub proof fn lemma_selection_deterministic(
    ws: Seq<Seq<u8>>,
    hist: Seq<Word>,
    vs: Seq<Vec<GuessResult>>,
    n: usize,
    r1: Result<Pools, SelectError>,
    r2: Result<Pools, SelectError>,
    g: Seq<u8>,
)
    requires
        pools_spec(ws, hist, vs, n, r1),
        pools_spec(ws, hist, vs, n, r2),
    ensures
        r1 is Err ==> r1 == r2,
        r1 matches Ok(p1) ==> (r2 matches Ok(p2) && p1.n_invisible == p2.n_invisible
            && p1.visible@.len() == p2.visible@.len() && total_after(p1.invisible@, g)
            == total_after(p2.invisible@, g) && forall|k: int|
            0 <= k < p1.visible@.len() ==> total_after(#[trigger] p1.visible@[k]@, g)
                == total_after(p2.visible@[k]@, g)),
{
    if r1 is Err {
        if n < vs.len() {
        } else {
            assert(!lengths_match(hist, vs));
        }
    }
    if r1 is Ok && r2 is Ok {
        let p1 = r1->Ok_0;
        let p2 = r2->Ok_0;
        lemma_total_after_by_words(p1.invisible@, p2.invisible@, hist, g);
        assert forall|k: int| 0 <= k < p1.visible@.len() implies total_after(#[trigger] p1.visible@[k]@, g)
            == total_after(p2.visible@[k]@, g) by {
            lemma_total_after_by_words(p1.visible@[k]@, p2.visible@[k]@, hist, g);
        }
    }
}

/// Every answer word, then every extra word: the words that may be guessed, in the
/// order in which ties between equal scores are broken.
pub fn candidate_guesses(d: &Dictionaries) -> (r: Vec<Word>)
    requires
        d.wf(),
    ensures
        words_of(r@) == decode_blob(d.answers@) + decode_blob(d.extra@),
{
    let mut a = wordles(d).collect_words();
    let mut b = other_words(d).collect_words();
    let ghost a0 = a@;
    let ghost b0 = b@;
    a.append(&mut b);
    assert(words_of(a@) =~= words_of(a0) + words_of(b0));
    a
}

/// Validates a game state and builds the candidate pools for it: one per visible
/// feedback history, of the unsolved answer words consistent with it, and one for
/// the unseen boards, of the unsolved answer words whose score is at most the
/// lowest, over the visible boards, of the highest score among their candidates.
pub fn prepare_pools(
    d: &Dictionaries,
    guess_history: &[Word],
    visible_results: &[Vec<GuessResult>],
    n_remaining_words: usize,
) -> (r: Result<Pools, SelectError>)
    requires
        d.wf(),
    ensures
        pools_spec(decode_blob(d.answers@), guess_history@, visible_results@, n_remaining_words, r),
{
    if n_remaining_words < visible_results.len() {
        return Err(SelectError::InsufficientRemaining);
    }
    let n_invisible = n_remaining_words - visible_results.len();
    let mut k: usize = 0;
    while k < visible_results.len()
        invariant
            0 <= k <= visible_results@.len(),
            n_remaining_words >= visible_results@.len(),
            forall|j: int| 0 <= j < k ==> (#[trigger] visible_results@[j])@.len() == guess_history@.len(),
        decreases visible_results.len() - k,
    {
        if visible_results[k].len() != guess_history.len() {
            assert(visible_results@[k as int]@.len() != guess_history@.len());
            return Err(SelectError::HistoryLengthMismatch);
        }
        k = k + 1;
    }
    let answers = wordles(d).collect_words();
    let ghost ws = decode_blob(d.answers@);
    assert(words_of(answers@) == ws);
    let unsolved = unsolved_states(&answers, guess_history);
    let mut visible: Vec<Vec<ScoringState>> = Vec::new();
    let mut bound: u8 = MAX_SCORE;
    let mut k: usize = 0;
    while k < visible_results.len()
        invariant
            0 <= k <= visible_results@.len(),
            n_remaining_words >= visible_results@.len(),
            lengths_match(guess_history@, visible_results@),
            ws == decode_blob(d.answers@),
            pool_words(unsolved@) == unsolved_words(ws, guess_history@),
            pool_exact(unsolved@, guess_history@),
            visible@.len() == k,
            forall|j: int|
                0 <= j < k ==> pool_words(#[trigger] visible@[j]@) == visible_words(
                    ws,
                    guess_history@,
                    visible_results@[j]@,
                ) && pool_exact(visible@[j]@, guess_history@),
            bound == cap(ws, guess_history@, visible_results@.take(k as int)),
        decreases visible_results.len() - k,
    {
        let pool = possible_states(&unsolved, guess_history, visible_results[k].as_slice());
        let c = pool_cap(&pool, guess_history);
        proof {
            let vk = visible_results@[k as int]@;
            assert(pool_words(pool@) =~= visible_words(ws, guess_history@, vk));
            let t = visible_results@.take(k as int + 1);
            assert(t.drop_last() =~= visible_results@.take(k as int));
            assert(t.last() == visible_results@[k as int]);
        }
        if c < bound {
            bound = c;
        }
        visible.push(pool);
        k = k + 1;
    }
    assert(visible_results@.take(k as int) =~= visible_results@);
    let invisible = if visible_results.len() == 0 {
        unsolved
    } else {
        let kept = states_at_most(&unsolved, guess_history, bound);
        proof {
            let p1 = |w: Seq<u8>| score_of(w, guess_history@) <= bound;
            let p2 = |w: Seq<u8>| score_of(w, guess_history@) <= cap(ws, guess_history@, visible_results@);
            assert(p1 =~= p2);
        }
        kept
    };
    Ok(Pools { visible, invisible, n_invisible })
}

/// The sum, over a pool, of each candidate's total score after one more guess.
pub fn pool_total_after(pool: &Vec<ScoringState>, guess: Word) -> (r: u64)
    requires
        pool@.len() < 0x1000_0000_0000_0000,
        forall|i: int| 0 <= i < pool@.len() ==> (#[trigger] pool@[i]).wf(),
    ensures
        r == total_after(pool@, guess@),
{
    par_total_after(pool, guess)
}

} // verus!
