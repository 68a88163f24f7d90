use super::letter::Letter;
use super::letter_counts::{countable, LetterCounts};
use vstd::prelude::*;

verus! {

/// A word of the dictionary together with the tally of its letters, which is
/// taken once, when the word is loaded.
#[derive(Debug)]
pub struct CountedWord {
    word: Vec<Letter>,
    counts: LetterCounts,
}

impl View for CountedWord {
    type V = Seq<Letter>;

    closed spec fn view(&self) -> Seq<Letter> {
        self.word@
    }
}

impl CountedWord {
    /// The tally is that of the word.
    #[verifier::type_invariant]
    spec fn tallied(self) -> bool {
        self.counts@ == self.word@.to_multiset()
    }

    /// How often the word holds `letter`.
    pub open spec fn count(self, letter: Letter) -> nat {
        self@.to_multiset().count(letter)
    }

    /// Pairs a word with the tally of its letters.
    pub fn from_word(word: Vec<Letter>) -> (counted: CountedWord)
        requires
            countable(word@),
        ensures
            counted@ == word@,
    {
        let counts = LetterCounts::count_letters(word.as_slice());
        CountedWord { word, counts }
    }

    /// Pairs each word of a list with its tally, in the order given.
    pub fn from_words(words: Vec<Vec<Letter>>) -> (counted: Vec<CountedWord>)
        requires
            forall|i: int| 0 <= i < words@.len() ==> countable(#[trigger] words@[i]@),
        ensures
            counted@.len() == words@.len(),
            forall|i: int| 0 <= i < words@.len() ==> (#[trigger] counted@[i])@ == words@[i]@,
    {
        let ghost given = words@;
        let mut counted: Vec<CountedWord> = Vec::new();
        for word in iter: words
            invariant
                iter.seq() == given,
                counted@.len() == iter.index(),
                forall|i: int| 0 <= i < given.len() ==> countable(#[trigger] given[i]@),
                forall|i: int| 0 <= i < iter.index() ==> (#[trigger] counted@[i])@ == given[i]@,
        {
            counted.push(CountedWord::from_word(word));
        }
        counted
    }

    /// The letters of the word, in order.
    pub fn word(&self) -> (letters: &[Letter])
        ensures
            letters@ == self@,
    {
        self.word.as_slice()
    }

    /// The tally of the word's letters.
    pub fn counts(&self) -> (counts: &LetterCounts)
        ensures
            counts@ == self@.to_multiset(),
    {
        proof {
            use_type_invariant(self);
        }
        &self.counts
    }
}

} // verus!
