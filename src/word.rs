use vstd::prelude::*;
use vstd::utf8::{encode_utf8, encode_utf8_decode_utf8};
use vstd::string::StringSliceAdditionalSpecFns;

verus! {

/// Number of letters in a word.
pub const WORD_LENGTH: usize = 5;

/// A lowercase letter `a`..`z`.
pub open spec fn is_letter(b: u8) -> bool {
    97 <= b <= 122
}

/// Every byte of `b` is a lowercase letter.
pub open spec fn all_letters(b: Seq<u8>) -> bool {
    forall|i: int| 0 <= i < b.len() ==> is_letter(#[trigger] b[i])
}

/// Why a text is not a word.
#[derive(Copy, Clone, PartialEq, Eq, Structural, Debug)]
pub enum WordOfStringError {
    WrongLength,
    InvalidLetter,
}

/// What parsing the bytes of a text gives: the word itself, or the first rule it breaks.
pub open spec fn word_of_bytes(b: Seq<u8>) -> Result<Seq<u8>, WordOfStringError> {
    if b.len() != 5 {
        Err(WordOfStringError::WrongLength)
    } else if !all_letters(b) {
        Err(WordOfStringError::InvalidLetter)
    } else {
        Ok(b)
    }
}

impl WordOfStringError {
    /// A human-readable description of the error.
    pub fn message(&self) -> (r: String)
        ensures
            *self == WordOfStringError::WrongLength ==> r@
                == "Wrong length: word must be exactly 5 letters"@,
            *self == WordOfStringError::InvalidLetter ==> r@
                == "Invalid letter: all letters in word must be a..z"@,
    {
        match self {
            WordOfStringError::WrongLength => "Wrong length: word must be exactly 5 letters".to_owned(),
            WordOfStringError::InvalidLetter => "Invalid letter: all letters in word must be a..z".to_owned(),
        }
    }
}

/// A five-letter word, stored as its bytes. Words compare byte by byte.
#[derive(Copy, Clone, Eq, PartialOrd, Ord, Debug)]
pub struct Word(pub [u8; 5]);

impl PartialEq for Word {
    fn eq(&self, o: &Word) -> (r: bool) {
        let r = self.0[0] == o.0[0] && self.0[1] == o.0[1] && self.0[2] == o.0[2] && self.0[3]
            == o.0[3] && self.0[4] == o.0[4];
        proof {
            if r {
                assert(self@ =~= o@);
            }
        }
        r
    }
}

impl vstd::std_specs::cmp::PartialEqSpecImpl for Word {
    open spec fn obeys_eq_spec() -> bool {
        true
    }

    open spec fn eq_spec(&self, o: &Word) -> bool {
        self@ == o@
    }
}

impl View for Word {
    type V = Seq<u8>;

    open spec fn view(&self) -> Seq<u8> {
        self.0@
    }
}

/// Relies on `String::from_utf8`: ASCII bytes are valid UTF-8, and the string's
/// encoding is exactly the given bytes.
#[verifier::external_body]
fn string_of_ascii(b: Vec<u8>) -> (r: String)
    requires
        forall|i: int| 0 <= i < b@.len() ==> b@[i] < 128,
    ensures
        encode_utf8(r@) == b@,
{
    String::from_utf8(b).unwrap()
}

impl Word {
    /// A word is valid when all its bytes are lowercase letters.
    pub open spec fn valid(&self) -> bool {
        all_letters(self@)
    }

    pub fn from(x: [u8; 5]) -> (r: Word)
        ensures
            r@ == x@,
    {
        Word(x)
    }

    pub fn bytes(&self) -> (r: &[u8; 5])
        ensures
            r@ == self@,
    {
        &self.0
    }

    /// Parses a word from text: exactly five bytes, each in `a`..`z`.
    pub fn try_from(value: &str) -> (r: Result<Word, WordOfStringError>)
        ensures
            r matches Ok(w) ==> word_of_bytes(value.spec_bytes()) == Ok::<Seq<u8>, WordOfStringError>(w@) && w.valid(),
            r matches Err(e) ==> word_of_bytes(value.spec_bytes()) == Err::<Seq<u8>, WordOfStringError>(e),
    {
        let bytes = value.as_bytes();
        if bytes.len() != WORD_LENGTH {
            return Err(WordOfStringError::WrongLength);
        }
        let mut i: usize = 0;
        while i < 5
            invariant
                0 <= i <= 5,
                bytes@.len() == 5,
                bytes@ == value.spec_bytes(),
                forall|j: int| 0 <= j < i ==> is_letter(#[trigger] bytes@[j]),
            decreases 5 - i,
        {
            if !(97u8 <= bytes[i] && bytes[i] <= 122u8) {
                return Err(WordOfStringError::InvalidLetter);
            }
            i = i + 1;
        }
        let w = Word([bytes[0], bytes[1], bytes[2], bytes[3], bytes[4]]);
        assert(w@ =~= bytes@);
        Ok(w)
    }

    /// The word as text.
    pub fn to_string(&self) -> (r: String)
        requires
            self.valid(),
        ensures
            encode_utf8(r@) == self@,
    {
        let v: Vec<u8> = vec![self.0[0], self.0[1], self.0[2], self.0[3], self.0[4]];
        assert(v@ =~= self@);
        string_of_ascii(v)
    }

    /// Iterates over the letters of the word, first to last.
    pub fn into_iter(self) -> (r: WordIter)
        ensures
            r.word == self,
            r.position == 0,
    {
        WordIter { word: self, position: 0 }
    }
}

/// Parsing a text and writing the word back out gives the same bytes; a text of
/// another length, or with a byte outside `a`..`z`, is refused.
pub proof fn lemma_word_round_trip(b: Seq<u8>)
    ensures
        word_of_bytes(b) is Ok <==> (b.len() == 5 && all_letters(b)),
        word_of_bytes(b) matches Ok(w) ==> w == b,
        b.len() != 5 ==> word_of_bytes(b) == Err::<Seq<u8>, _>(WordOfStringError::WrongLength),
        b.len() == 5 && !all_letters(b) ==> word_of_bytes(b) == Err::<Seq<u8>, _>(
            WordOfStringError::InvalidLetter,
        ),
{
}

/// A text whose bytes parse as a word, written back out from that word, is the
/// same text: `to_string` gives a text whose bytes are the word's, and only one
/// text has those bytes.
pub proof fn lemma_text_round_trip(input: Seq<char>, output: Seq<char>)
    requires
        word_of_bytes(encode_utf8(input)) is Ok,
        encode_utf8(output) == word_of_bytes(encode_utf8(input))->Ok_0,
    ensures
        output == input,
{
    encode_utf8_decode_utf8(input);
    encode_utf8_decode_utf8(output);
}

/// Walks the letters of a word.
#[derive(Copy, Clone)]
pub struct WordIter {
    pub word: Word,
    pub position: u8,
}

impl WordIter {
    /// The letters still to come.
    pub open spec fn remaining(&self) -> Seq<u8> {
        if self.position < 5 {
            self.word@.subrange(self.position as int, 5)
        } else {
            Seq::empty()
        }
    }

    pub fn next(&mut self) -> (r: Option<u8>)
        ensures
            old(self).remaining().len() == 0 ==> r is None && final(self).remaining().len() == 0,
            old(self).remaining().len() > 0 ==> r == Some(old(self).remaining()[0])
                && final(self).remaining() == old(self).remaining().drop_first(),
            final(self).word == old(self).word,
    {
        if self.position < 5 {
            let x = self.word.0[self.position as usize];
            self.position = self.position + 1;
            proof {
                assert(self.remaining() =~= old(self).remaining().drop_first());
            }
            Some(x)
        } else {
            None
        }
    }
}

} // verus!
