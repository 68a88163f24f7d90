use super::counted_word::CountedWord;
use super::letter::Letter;
use vstd::prelude::*;

verus! {

/// The words that a list of references points to.
pub open spec fn referents(list: Seq<&CountedWord>) -> Seq<CountedWord> {
    list.map_values(|word: &CountedWord| *word)
}

/// The test by which a word belongs to the candidates of `letter`: it holds
/// the letter at least once.
pub open spec fn holds(letter: Letter) -> spec_fn(CountedWord) -> bool {
    |word: CountedWord| word.count(letter) > 0
}

/// Whether `list` is the index of `words` for `letter`: it has the words that
/// hold the letter, each as often as `words` has it, and no others, and a word
/// never stands before one that holds the letter less often.
pub open spec fn is_index(list: Seq<CountedWord>, words: Seq<CountedWord>, letter: Letter) -> bool {
    &&& list.to_multiset() == words.filter(holds(letter)).to_multiset()
    &&& forall|i: int, j: int|
        0 <= i <= j < list.len() ==> list[i].count(letter) <= list[j].count(letter)
}

/// A dictionary with, for every letter, the list of its words that hold the
/// letter, in ascending order of how often they hold it.
pub struct WordList<'a> {
    words: &'a [CountedWord],
    sorted_lists: Vec<Vec<&'a CountedWord>>,
}

/// Sorts `list` by how often its words hold `letter`, fewest first, with
/// `sort_by_key` of the standard library's slices. The contract claims what
/// its documentation says of every sort: the list afterwards has the items it
/// had before, each as often, and is in ascending order of the key.
#[verifier::external_body]
fn sort_by_count<'a>(list: &mut Vec<&'a CountedWord>, letter: Letter)
    ensures
        referents(final(list)@).to_multiset() == referents(old(list)@).to_multiset(),
        forall|i: int, j: int|
            0 <= i <= j < final(list)@.len() ==> final(list)@[i].count(letter)
                <= final(list)@[j].count(letter),
{
    list.sort_by_key(|word| word.counts().value_at(letter));
}

impl<'a> WordList<'a> {
    /// The words of the dictionary, in the order in which they were given.
    pub closed spec fn words(self) -> Seq<CountedWord> {
        self.words@
    }

    /// The candidates of `letter`, in the order in which a search tries them.
    pub closed spec fn candidates(self, letter: Letter) -> Seq<CountedWord> {
        referents(self.sorted_lists@[letter.ord()]@)
    }

    /// Every letter has its index.
    #[verifier::type_invariant]
    pub closed spec fn wf(self) -> bool {
        &&& self.sorted_lists@.len() == 26
        &&& forall|letter: Letter| is_index(#[trigger] self.candidates(letter), self.words(), letter)
    }

    /// Index invariant: the candidates of a letter are exactly the words of the
    /// dictionary that hold the letter, and how often they hold it never
    /// falls along the list.
    pub proof fn lemma_index_invariant(self, letter: Letter)
        requires
            self.wf(),
        ensures
            is_index(self.candidates(letter), self.words(), letter),
            forall|word: CountedWord|
                self.candidates(letter).contains(word) <==> self.words().contains(word)
                    && word.count(letter) > 0,
    {
        let list = self.candidates(letter);
        let kept = self.words().filter(holds(letter));
        assert forall|word: CountedWord| list.contains(word) <==> self.words().contains(word)
            && word.count(letter) > 0 by {
            list.to_multiset_ensures();
            kept.to_multiset_ensures();
            assert(list.contains(word) <==> list.to_multiset().count(word) > 0);
            assert(kept.contains(word) <==> kept.to_multiset().count(word) > 0);
            if kept.contains(word) {
                let i = choose|i: int| 0 <= i < kept.len() && kept[i] == word;
                self.words().lemma_filter_pred(holds(letter), i);
                self.words().lemma_filter_contains_rev(holds(letter), word);
            }
            if self.words().contains(word) && word.count(letter) > 0 {
                let i = choose|i: int| 0 <= i < self.words().len() && self.words()[i] == word;
                self.words().lemma_filter_contains(holds(letter), i);
            }
        }
    }

    /// Building twice from the same words gives every letter the same
    /// candidates, up to the order among them.
    pub proof fn lemma_same_words_same_candidates(self, other: WordList, letter: Letter)
        requires
            self.wf(),
            other.wf(),
            self.words() == other.words(),
        ensures
            self.candidates(letter).to_multiset() == other.candidates(letter).to_multiset(),
            forall|word: CountedWord|
                self.candidates(letter).contains(word) <==> other.candidates(letter).contains(
                    word,
                ),
    {
        self.lemma_index_invariant(letter);
        other.lemma_index_invariant(letter);
        assert forall|word: CountedWord|
            self.candidates(letter).contains(word) <==> other.candidates(letter).contains(
                word,
            ) by {
            assert(self.candidates(letter).contains(word) <==> self.words().contains(word)
                && word.count(letter) > 0);
            assert(other.candidates(letter).contains(word) <==> other.words().contains(word)
                && word.count(letter) > 0);
        }
    }

    /// Indexes a dictionary: sorts its words, for every letter, into the list
    /// of that letter's candidates.
    pub fn new(words: &'a [CountedWord]) -> (wl: WordList<'a>)
        ensures
            wl.wf(),
            wl.words() == words@,
            forall|letter: Letter| is_index(#[trigger] wl.candidates(letter), words@, letter),
    {
        let mut sorted_lists: Vec<Vec<&'a CountedWord>> = Vec::new();
        let mut next: Option<Letter> = Some(Letter::A);
        while next.is_some()
            invariant
                sorted_lists@.len() <= 26,
                next == (if sorted_lists@.len() < 26 {
                    Some(Letter::at(sorted_lists@.len() as int))
                } else {
                    None::<Letter>
                }),
                forall|k: int|
                    0 <= k < sorted_lists@.len() ==> is_index(
                        referents(#[trigger] sorted_lists@[k]@),
                        words@,
                        Letter::at(k),
                    ),
            decreases 26 - sorted_lists@.len(),
        {
            let letter: Letter = next.unwrap();
            proof {
                Letter::lemma_at_ord(sorted_lists@.len() as int);
            }
            let list = WordList::sorted_list_for(words, letter);
            sorted_lists.push(list);
            next = letter.inc();
        }
        let wl = WordList { words, sorted_lists };
        proof {
            assert forall|letter: Letter| is_index(
                #[trigger] wl.candidates(letter),
                wl.words(),
                letter,
            ) by {
                letter.lemma_ord_at();
            }
        }
        wl
    }

    /// The index of `words` for one letter.
    fn sorted_list_for(words: &'a [CountedWord], letter: Letter) -> (list: Vec<&'a CountedWord>)
        ensures
            is_index(referents(list@), words@, letter),
    {
        let mut ret: Vec<&'a CountedWord> = Vec::new();
        let mut i: usize = 0;
        proof {
            reveal(Seq::filter);
            assert(words@.take(0) =~= Seq::<CountedWord>::empty());
            assert(referents(ret@) =~= words@.take(0).filter(holds(letter)));
        }
        while i < words.len()
            invariant
                i <= words.len(),
                referents(ret@) == words@.take(i as int).filter(holds(letter)),
            decreases words.len() - i,
        {
            let word: &'a CountedWord = &words[i];
            let ghost before = ret@;
            let held: bool = !word.counts().is_zero_at(letter);
            if held {
                ret.push(word);
            }
            proof {
                let seen = words@.take(i as int);
                assert(words@.take(i + 1) =~= seen.push(*word));
                seen.lemma_filter_push(*word, holds(letter));
                assert(held == holds(letter)(*word));
                if held {
                    assert(referents(ret@) =~= referents(before).push(*word));
                }
            }
            i += 1;
        }
        proof {
            assert(words@.take(words@.len() as int) =~= words@);
        }
        sort_by_count(&mut ret, letter);
        proof {
            let list = referents(ret@);
            assert forall|i: int, j: int| 0 <= i <= j < list.len() implies list[i].count(letter)
                <= list[j].count(letter) by {
                assert(list[i] == *ret@[i] && list[j] == *ret@[j]);
            }
        }
        ret
    }

    /// The candidates of `letter`: the words that hold it, those that hold it
    /// least often first.
    pub fn candidates_for(&self, letter: Letter) -> (list: &[&'a CountedWord])
        ensures
            referents(list@) == self.candidates(letter),
            is_index(referents(list@), self.words(), letter),
    {
        proof {
            use_type_invariant(self);
            assert(is_index(self.candidates(letter), self.words(), letter));
        }
        self.sorted_lists[letter.ordinal()].as_slice()
    }

    /// The words of the dictionary, in the order in which they were given.
    pub fn words_given(&self) -> (words: &'a [CountedWord])
        ensures
            words@ == self.words(),
    {
        self.words
    }
}

} // verus!
