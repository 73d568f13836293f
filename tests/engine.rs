use kilordle_droid::compile::compile_words;
use kilordle_droid::dict::{is_well_formed, other_words, wordles, DictIterator, Dictionaries};
use kilordle_droid::feedback::{classify_guess, FeedbackError, GuessResult, LetterMatch};
use kilordle_droid::scoring::ScoringState;
use kilordle_droid::select::{candidate_guesses, pool_total_after, prepare_pools, SelectError};
use kilordle_droid::word::{Word, WordOfStringError};

fn word(s: &str) -> Word {
    Word::try_from(s).unwrap()
}

fn result(s: &str) -> GuessResult {
    GuessResult::from_text(s).unwrap()
}

fn common_prefix(a: &[u8; 5], b: &[u8; 5]) -> usize {
    let mut n = 0;
    while n < 5 && a[n] == b[n] {
        n += 1;
    }
    n
}

/// Compiles sorted words into 64-byte front-coded blocks, as the build step does.
fn compile(words: &[[u8; 5]]) -> Vec<u8> {
    let mut buf = Vec::new();
    let mut i = 0;
    while i < words.len() {
        let block_end = buf.len() + 64;
        let mut prev = words[i];
        buf.extend_from_slice(&prev);
        i += 1;
        while i < words.len() {
            let p = common_prefix(&prev, &words[i]);
            if buf.len() + 2 + (5 - p) > block_end {
                break;
            }
            buf.push(p as u8);
            buf.extend_from_slice(&words[i][p..]);
            prev = words[i];
            i += 1;
        }
        buf.push(0xff);
        while buf.len() < block_end {
            buf.push(b' ');
        }
    }
    buf
}

fn sample_words(n: usize) -> Vec<[u8; 5]> {
    let mut v = Vec::new();
    let mut k = 0usize;
    while v.len() < n {
        let w = [
            b'a' + ((k / 4096) % 26) as u8,
            b'a' + ((k / 256) % 26) as u8,
            b'a' + ((k / 16) % 26) as u8,
            b'a' + ((k / 3) % 26) as u8,
            b'a' + (k % 26) as u8,
        ];
        v.push(w);
        k += 7;
    }
    v.sort_unstable();
    v
}

fn decode_all(it: DictIterator) -> Vec<Word> {
    it.collect_words()
}

#[test]
fn test_score_examples() {
    fn scoring_state(guesses: &[&str], code_word: &str) -> [u8; 5] {
        let mut state = ScoringState::for_word(word(code_word));
        guesses.iter().for_each(|&guess| state.add_history_item(word(guess)));
        state.scores_at_positions()
    }

    let history = &["hello", "world"];
    assert_eq!(scoring_state(history, "hello"), [3, 3, 3, 3, 3]);
    assert_eq!(scoring_state(history, "holds"), [3, 3, 3, 1, 0]);
    assert_eq!(scoring_state(history, "daair"), [1, 0, 0, 0, 1]);
}

#[test]
fn test_result_possible_examples() {
    fn possible(r: &str, guess: &str, the_word: &str) -> bool {
        result(r).is_possible(word(guess), word(the_word))
    }
    assert_eq!(possible("     ", "deair", "stoln"), true);
    assert_eq!(possible("     ", "deair", "hello"), false);
    assert_eq!(possible(" O   ", "deair", "hello"), true);
    assert_eq!(possible("  oO ", "stoln", "hello"), true);
    assert_eq!(possible("  oO ", "stoln", "hello"), true);
    assert_eq!(possible("   o ", "aabee", "hello"), true);
    assert_eq!(possible("    o", "aabee", "hello"), true);
}

#[test]
fn word_round_trip() {
    for s in ["hello", "abcde", "zzzzz", "aaaaa"] {
        assert_eq!(word(s).to_string(), s);
        assert_eq!(word(s).bytes(), s.as_bytes());
    }
}

#[test]
fn word_errors() {
    assert_eq!(Word::try_from("hell"), Err(WordOfStringError::WrongLength));
    assert_eq!(Word::try_from("helloo"), Err(WordOfStringError::WrongLength));
    assert_eq!(Word::try_from(""), Err(WordOfStringError::WrongLength));
    assert_eq!(Word::try_from("Hello"), Err(WordOfStringError::InvalidLetter));
    assert_eq!(Word::try_from("hel o"), Err(WordOfStringError::InvalidLetter));
    assert_eq!(Word::try_from("héll"), Err(WordOfStringError::InvalidLetter));
    assert!(!WordOfStringError::WrongLength.message().is_empty());
}

#[test]
fn word_iteration() {
    let mut it = word("crane").into_iter();
    let mut out = Vec::new();
    while let Some(b) = it.next() {
        out.push(b);
    }
    assert_eq!(out, b"crane".to_vec());
    assert_eq!(it.next(), None);
}

#[test]
fn feedback_parsing() {
    assert_eq!(result(" oO  ").0, [LetterMatch::Nothing, LetterMatch::Partial, LetterMatch::Exact, LetterMatch::Nothing, LetterMatch::Nothing]);
    assert!(matches!(GuessResult::from_text("oo"), Err(FeedbackError::WrongLength)));
    assert!(matches!(GuessResult::from_text("ooxoo"), Err(FeedbackError::InvalidCharacter)));
}

#[test]
fn duplicate_letters_consumed_in_order() {
    // one free 'e' in "hello": the second 'e' of the guess must be Partial or
    // Nothing, but not both 'e's Partial
    assert!(result("    o").is_possible(word("aabee"), word("hello")));
    assert!(!result("   oo").is_possible(word("aabee"), word("hello")));
    assert!(!result("    O").is_possible(word("aabee"), word("hello")));
    assert!(!result("     ").is_possible(word("aabee"), word("hello")));
}

#[test]
fn history_consistency() {
    let guesses = [word("deair"), word("stoln")];
    let results = [result(" O   "), result("  oO ")];
    assert!(GuessResult::history_is_possible(&guesses, &results, word("hello")));
    assert!(!GuessResult::history_is_possible(&guesses, &results, word("stoln")));
}

#[test]
fn scoring_monotone_and_total() {
    let mut state = ScoringState::for_word(word("holds"));
    assert_eq!(state.current_score(), 0);
    state.add_history_items(&[word("hello")]);
    let first = state.scores_at_positions();
    state.add_history_items(&[word("world")]);
    let second = state.scores_at_positions();
    for i in 0..5 {
        assert!(second[i] >= first[i]);
    }
    assert_eq!(state.current_score(), 10);
    assert_eq!(ScoringState::of_history(word("hello"), &[word("hello")]).current_score(), 15);
    assert_eq!(ScoringState::for_word(word("holds")).score_after(word("hello")), 3 + 1 + 3 + 0 + 0);
}

#[test]
fn dictionary_decodes_compiled_words() {
    let words = sample_words(200);
    let blob = compile(&words);
    assert_eq!(blob.len() % 64, 0);
    assert!(is_well_formed(&blob));
    let decoded = decode_all(DictIterator::of_slice(&blob));
    let expected: Vec<Word> = words.iter().map(|w| Word::from(*w)).collect();
    assert_eq!(decoded, expected);
}

#[test]
fn dictionary_split_keeps_words() {
    let words = sample_words(300);
    let blob = compile(&words);
    let whole = decode_all(DictIterator::of_slice(&blob));
    let (left, right) = DictIterator::of_slice(&blob).split();
    let mut joined = decode_all(left);
    joined.extend(decode_all(right.unwrap()));
    assert_eq!(joined, whole);
    // the undecoded bytes of a single fresh block are not split
    let one = compile(&words[..3]);
    assert_eq!(one.len(), 64);
    let (l, r) = DictIterator::of_slice(&one).split();
    assert!(r.is_none());
    assert_eq!(decode_all(l).len(), 3);
    // nothing left at all: no split
    let (l, r) = DictIterator::of_slice(&[]).split();
    assert!(r.is_none());
    assert!(decode_all(l).is_empty());
}

#[test]
fn dictionary_split_at_block_boundary() {
    let words = sample_words(300);
    let blob = compile(&words);
    let nb = blob.len() / 64;
    assert!(nb >= 3);
    let whole = decode_all(DictIterator::of_slice(&blob));
    // fresh iterator: the second part holds the last nb - nb/2 blocks, from scratch
    let (l, r) = DictIterator::of_slice(&blob).split();
    let tail = decode_all(DictIterator::of_slice(&blob[(nb / 2) * 64..]));
    let head = decode_all(DictIterator::of_slice(&blob[..(nb / 2) * 64]));
    assert_eq!(decode_all(r.unwrap()), tail);
    assert_eq!(decode_all(l), head);
    // one whole block left and a block in progress: the whole block is handed over
    let two = &blob[..128];
    let mut it = DictIterator::of_slice(two);
    let first = it.next().unwrap();
    let (l, r) = it.split();
    let second_block = decode_all(DictIterator::of_slice(&two[64..]));
    assert_eq!(decode_all(r.unwrap()), second_block);
    let mut rebuilt = vec![first];
    rebuilt.extend(decode_all(l));
    rebuilt.extend(second_block);
    assert_eq!(rebuilt, decode_all(DictIterator::of_slice(two)));
    let _ = whole;
}

#[test]
fn malformed_dictionaries_are_refused() {
    assert!(is_well_formed(&[]));
    assert!(!is_well_formed(&[b'a'; 63]));
    let mut blob = compile(&sample_words(5));
    blob[5] = 9;
    assert!(!is_well_formed(&blob));
    assert!(Dictionaries::new(blob, Vec::new()).is_none());
}

fn dictionaries() -> Dictionaries {
    let answers = [*b"hello", *b"holds", *b"world", *b"daair"];
    let mut sorted = answers.to_vec();
    sorted.sort_unstable();
    let extra = [*b"aabee"];
    Dictionaries::new(compile(&sorted), compile(&extra)).unwrap()
}

#[test]
fn answer_and_extra_words() {
    let d = dictionaries();
    assert_eq!(decode_all(wordles(&d)).len(), 4);
    assert_eq!(decode_all(other_words(&d)), vec![word("aabee")]);
    let all = candidate_guesses(&d);
    assert_eq!(all.len(), 5);
    assert_eq!(all[0], word("daair"));
    assert_eq!(all[4], word("aabee"));
}

#[test]
fn selection_errors() {
    let d = dictionaries();
    let hist = [word("hello")];
    let visible = vec![vec![result("OOOOO")], vec![result("     ")]];
    assert_eq!(prepare_pools(&d, &hist, &visible, 1).err(), Some(SelectError::InsufficientRemaining));
    let bad = vec![vec![result("OOOOO"), result("     ")]];
    assert_eq!(prepare_pools(&d, &hist, &bad, 3).err(), Some(SelectError::HistoryLengthMismatch));
    assert!(prepare_pools(&d, &hist, &visible, 2).is_ok());
}

#[test]
fn selection_pools() {
    let d = dictionaries();
    let hist = [word("hello")];
    // "hello" is solved by the guess; the rest stay unsolved
    let pools = prepare_pools(&d, &hist, &[], 10).unwrap();
    assert_eq!(pools.n_invisible, 10);
    let ws: Vec<Word> = pools.invisible.iter().map(|s| s.word).collect();
    assert_eq!(ws, vec![word("daair"), word("holds"), word("world")]);
    // a board that saw "O O o" admits only "holds", of score 7, which caps the unseen pool
    let visible = vec![vec![result("O O o")]];
    let pools = prepare_pools(&d, &hist, &visible, 3).unwrap();
    assert_eq!(pools.n_invisible, 2);
    let vs: Vec<Word> = pools.visible[0].iter().map(|s| s.word).collect();
    assert_eq!(vs, vec![word("holds")]);
    let ws: Vec<Word> = pools.invisible.iter().map(|s| s.word).collect();
    assert_eq!(ws, vec![word("daair"), word("holds"), word("world")]);
    assert_eq!(pool_total_after(&pools.visible[0], word("holds")), 15);
    assert_eq!(pools.visible[0][0].current_score(), 7);
}

#[test]
fn selection_is_deterministic() {
    let d = dictionaries();
    let hist = [word("world")];
    let visible = vec![vec![result(" o o ")]];
    let a = prepare_pools(&d, &hist, &visible, 4).unwrap();
    let b = prepare_pools(&d, &hist, &visible, 4).unwrap();
    let wa: Vec<Word> = a.invisible.iter().map(|s| s.word).collect();
    let wb: Vec<Word> = b.invisible.iter().map(|s| s.word).collect();
    assert_eq!(wa, wb);
    for g in candidate_guesses(&d) {
        assert_eq!(pool_total_after(&a.invisible, g), pool_total_after(&b.invisible, g));
    }
}

fn feedback_text(r: &GuessResult) -> String {
    r.0.iter()
        .map(|m| match m {
            LetterMatch::Nothing => ' ',
            LetterMatch::Partial => 'o',
            LetterMatch::Exact => 'O',
        })
        .collect()
}

#[test]
fn classify_duplicate_letters() {
    assert_eq!(feedback_text(&classify_guess(word("aabee"), word("hello"))), "   o ");
    assert_eq!(feedback_text(&classify_guess(word("hello"), word("holds"))), "O O o");
    assert_eq!(feedback_text(&classify_guess(word("hello"), word("world"))), "   Oo");
    assert_eq!(feedback_text(&classify_guess(word("hello"), word("hello"))), "OOOOO");
    assert_eq!(feedback_text(&classify_guess(word("lllll"), word("hello"))), "  OO ");
}

#[test]
fn secret_consistent_with_its_own_feedback() {
    let words = ["hello", "aabee", "holds", "world", "daair", "lllll", "eerie", "stoln"];
    for g in words {
        for s in words {
            let fb = classify_guess(word(g), word(s));
            assert!(fb.is_possible(word(g), word(s)), "{} against {}", g, s);
        }
    }
}

#[test]
fn library_compiler_round_trip() {
    let raw = sample_words(500);
    let words: Vec<Word> = raw.iter().map(|w| Word::from(*w)).collect();
    let blob = compile_words(&words);
    assert_eq!(blob, compile(&raw));
    assert!(is_well_formed(&blob));
    assert_eq!(decode_all(DictIterator::of_slice(&blob)), words);
    let mut dup = words.clone();
    dup.insert(3, words[3]);
    let blob = compile_words(&dup);
    assert_eq!(decode_all(DictIterator::of_slice(&blob)), dup);
    assert!(compile_words(&Vec::new()).is_empty());
}

#[test]
fn empty_dictionaries() {
    let d = Dictionaries::new(Vec::new(), Vec::new()).unwrap();
    assert!(candidate_guesses(&d).is_empty());
    let pools = prepare_pools(&d, &[], &[vec![]], 1).unwrap();
    assert!(pools.invisible.is_empty());
    assert!(pools.visible[0].is_empty());
    assert_eq!(pools.n_invisible, 0);
    assert_eq!(pool_total_after(&pools.invisible, word("hello")), 0);
}

#[test]
fn compiled_block_layout() {
    let words = vec![word("aaaaa"), word("aaaab"), word("abcde")];
    let blob = compile_words(&words);
    let mut expected = b"aaaaa".to_vec();
    expected.extend_from_slice(&[4, b'b']);
    expected.extend_from_slice(&[1, b'b', b'c', b'd', b'e']);
    expected.push(0xff);
    while expected.len() < 64 {
        expected.push(b' ');
    }
    assert_eq!(blob, expected);
    // a block keeps one byte for its end marker: a first word and 9 entries of
    // 6 bytes fill 59 bytes, and a tenth entry would leave no room
    let many: Vec<Word> = (0..12u8).map(|k| Word::from([b'a' + k, b'a', b'a', b'a', b'a'])).collect();
    let blob = compile_words(&many);
    assert_eq!(blob.len(), 128);
    assert_eq!(blob[59], 0xff);
    assert_eq!(&blob[64..69], b"kaaaa");
}

#[test]
fn partial_cannot_be_a_positional_match() {
    // position 1 guesses 'a' where the secret has 'a': it cannot be Partial, even
    // after position 0 has consumed that slot
    assert!(!result("oo   ").is_possible(word("aaxyz"), word("babad")));
    // the feedback this guess really gives
    assert!(result("oO   ").is_possible(word("aaxyz"), word("babad")));
    assert_eq!(feedback_text(&classify_guess(word("aaxyz"), word("babad"))), "oO   ");
}
