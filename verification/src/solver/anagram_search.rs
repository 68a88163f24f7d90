use super::counted_word::CountedWord;
use super::letter::Letter;
use super::letter_counts::LetterCounts;
use super::phrase::{lemma_phrase_letters_push, phrase_letters};
use super::word_list::{referents, WordList};
use vstd::multiset::Multiset;
use vstd::prelude::*;

verus! {

/// The letter sequences of the words on a stack, bottom first.
pub open spec fn stack_words(stack: Seq<&CountedWord>) -> Seq<Seq<Letter>> {
    stack.map_values(|word: &CountedWord| word@)
}

/// The letter sequences that a list of slices or of vectors holds.
pub open spec fn slice_words(list: Seq<&[Letter]>) -> Seq<Seq<Letter>> {
    list.map_values(|word: &[Letter]| word@)
}

/// The letter sequences that a list of owned words holds.
pub open spec fn owned_words(list: Seq<Vec<Letter>>) -> Seq<Seq<Letter>> {
    list.map_values(|word: Vec<Letter>| word@)
}

/// One search in flight: the words chosen so far, as a stack, and the letters
/// that they cover of the target.
pub struct AnagramSearch<'a> {
    wl: &'a WordList<'a>,
    phrase: Vec<&'a CountedWord>,
    phrase_letter_counts: LetterCounts,
    target: &'a LetterCounts,
}

impl<'a> AnagramSearch<'a> {
    /// The dictionary that is searched.
    pub closed spec fn word_list(self) -> WordList<'a> {
        *self.wl
    }

    /// The letters that the search is to cover.
    pub closed spec fn target(self) -> Multiset<Letter> {
        self.target@
    }

    /// The words chosen so far, in the order in which they were chosen.
    pub closed spec fn phrase(self) -> Seq<Seq<Letter>> {
        stack_words(self.phrase@)
    }

    /// The letters of the target that the chosen words do not cover yet.
    pub open spec fn room(self) -> Multiset<Letter> {
        self.target().sub(phrase_letters(self.phrase()))
    }

    /// The chosen words are words of the dictionary, their letters are
    /// tallied, and they lie within the target.
    pub closed spec fn wf(self) -> bool {
        &&& self.wl.wf()
        &&& self.wl.is_phrase(self.phrase())
        &&& self.phrase_letter_counts@ == phrase_letters(self.phrase())
        &&& self.phrase_letter_counts@.subset_of(self.target@)
    }

    /// In a search the chosen words never hold more than the target.
    pub proof fn lemma_within_target(self)
        requires
            self.wf(),
        ensures
            self.word_list().wf(),
            self.word_list().is_phrase(self.phrase()),
            phrase_letters(self.phrase()).subset_of(self.target()),
            self.room().add(phrase_letters(self.phrase())) == self.target(),
    {
        assert(self.room().add(phrase_letters(self.phrase())) =~= self.target());
    }

    /// A search of `wl` for `target`, with no word chosen yet.
    pub(crate) fn new(wl: &'a WordList<'a>, target: &'a LetterCounts) -> (search: AnagramSearch<'a>)
        ensures
            search.wf(),
            search.word_list() == *wl,
            search.target() == target@,
            search.phrase() == Seq::<Seq<Letter>>::empty(),
    {
        let search = AnagramSearch {
            wl,
            phrase: Vec::new(),
            phrase_letter_counts: LetterCounts::default(),
            target,
        };
        proof {
            use_type_invariant(wl);
            assert(search.phrase() =~= Seq::<Seq<Letter>>::empty());
        }
        search
    }

    /// The tally of the letters that are still to be covered.
    fn room_left(&self) -> (room: LetterCounts)
        requires
            self.wf(),
        ensures
            room@ == self.room(),
    {
        self.target.checked_sub(&self.phrase_letter_counts).unwrap()
    }

    /// Runs the search from the state it is in, and hands out the chosen
    /// words, bottom of the stack first, if it found a phrase. What it finds
    /// is added to the words that were chosen before; where it finds nothing
    /// the chosen words are as they were.
    pub fn find_anagrams(&mut self) -> (found: Option<Vec<&'a [Letter]>>)
        requires
            old(self).wf(),
        ensures
            final(self).wf(),
            final(self).word_list() == old(self).word_list(),
            final(self).target() == old(self).target(),
            match old(self).word_list().first_phrase(Letter::A, old(self).room()) {
                Some(rest) => final(self).phrase() == old(self).phrase() + rest,
                None => final(self).phrase() == old(self).phrase(),
            },
            found is Some <==> old(self).word_list().first_phrase(Letter::A, old(self).room())
                is Some,
            found matches Some(words) ==> slice_words(words@) == final(self).phrase(),
    {
        if !self.search(Letter::A) {
            return None;
        }
        let mut words: Vec<&'a [Letter]> = Vec::new();
        let mut i: usize = 0;
        while i < self.phrase.len()
            invariant
                i <= self.phrase@.len(),
                words@.len() == i,
                forall|k: int| 0 <= k < i ==> (#[trigger] words@[k])@ == self.phrase@[k]@,
            decreases self.phrase@.len() - i,
        {
            words.push(self.phrase[i].word());
            i += 1;
        }
        assert(slice_words(words@) =~= self.phrase());
        Some(words)
    }

    /// Steps the scan of `low_letter`'s candidates: the word at position
    /// `progress`, which the scan tries next, or `None` where the scan is
    /// over. It is over at the end of the list, and at a word that holds more
    /// of `low_letter` than is left to cover.
    fn inc(&self, low_letter: Letter, progress: usize) -> (next: Option<&'a CountedWord>)
        requires
            self.wf(),
        ensures
            next is Some <==> progress < self.word_list().candidates(low_letter).len()
                && self.word_list().candidates(low_letter)[progress as int].count(low_letter)
                <= self.room().count(low_letter),
            next matches Some(word) ==> *word == self.word_list().candidates(
                low_letter,
            )[progress as int],
            next is Some ==> progress < usize::MAX,
    {
        let sorted_list = self.wl.candidates_for(low_letter);
        let room = self.room_left();
        if progress >= sorted_list.len() {
            return None;
        }
        let word: &'a CountedWord = sorted_list[progress];
        assert(*word == referents(sorted_list@)[progress as int]);
        if word.counts().value_at(low_letter) > room.value_at(low_letter) {
            None
        } else {
            Some(word)
        }
    }

    /// Chooses `word`, if all its letters are still to be covered; else
    /// nothing changes.
    fn push_word(&mut self, word: &'a CountedWord) -> (pushed: Option<()>)
        requires
            old(self).wf(),
            old(self).word_list().has_word(word@),
        ensures
            final(self).wf(),
            final(self).word_list() == old(self).word_list(),
            final(self).target() == old(self).target(),
            pushed is Some <==> word@.to_multiset().subset_of(old(self).room()),
            pushed is Some ==> final(self).phrase() == old(self).phrase().push(word@),
            pushed is None ==> final(self).phrase() == old(self).phrase(),
    {
        let room = self.room_left();
        let held = word.counts();
        if room.exceeds(held) {
            None
        } else {
            proof {
                self.target.lemma_bounded();
                lemma_phrase_letters_push(self.phrase(), word@);
                assert forall|letter: Letter| #[trigger]
                    self.phrase_letter_counts@.count(letter) + held@.count(letter)
                        <= self.target@.count(letter) by {
                    assert(held@.count(letter) <= room@.count(letter));
                }
            }
            let ghost before = self.phrase@;
            self.phrase.push(word);
            self.phrase_letter_counts = self.phrase_letter_counts.add(held);
            proof {
                assert(stack_words(self.phrase@) =~= stack_words(before).push(word@));
                assert forall|i: int| 0 <= i < self.phrase().len() implies self.wl.has_word(
                    #[trigger] self.phrase()[i],
                ) by {
                    if i < before.len() {
                        assert(self.phrase()[i] == stack_words(before)[i]);
                    }
                }
            }
            Some(())
        }
    }

    /// Takes back the word that was chosen last, if there is one.
    fn pop_word(&mut self) -> (popped: Option<()>)
        requires
            old(self).wf(),
        ensures
            final(self).wf(),
            final(self).word_list() == old(self).word_list(),
            final(self).target() == old(self).target(),
            popped is Some <==> old(self).phrase().len() > 0,
            popped is Some ==> final(self).phrase() == old(self).phrase().drop_last(),
            popped is None ==> final(self).phrase() == old(self).phrase(),
    {
        let ghost before = self.phrase@;
        match self.phrase.pop() {
            None => None,
            Some(word) => {
                let held = word.counts();
                proof {
                    assert(stack_words(self.phrase@) =~= stack_words(before).drop_last());
                    assert(stack_words(before).last() == word@);
                    assert(phrase_letters(stack_words(before)) == phrase_letters(
                        stack_words(before).drop_last(),
                    ).add(word@.to_multiset()));
                    assert(held@.subset_of(self.phrase_letter_counts@));
                    assert(self.phrase_letter_counts@.sub(word@.to_multiset()) =~= phrase_letters(
                        stack_words(self.phrase@),
                    ));
                    assert forall|i: int| 0 <= i < self.phrase().len() implies self.wl.has_word(
                        #[trigger] self.phrase()[i],
                    ) by {
                        assert(self.phrase()[i] == stack_words(before)[i]);
                    }
                }
                self.phrase_letter_counts = self.phrase_letter_counts.checked_sub(held).unwrap();
                Some(())
            },
        }
    }

    /// The search itself, standing at `letter`: depth first, one letter after
    /// the other, each letter until nothing of it is left to cover. It adds
    /// the phrase it finds to the chosen words; where it finds none, it
    /// leaves them as they were.
    fn search(&mut self, letter: Letter) -> (found: bool)
        requires
            old(self).wf(),
        ensures
            final(self).wf(),
            final(self).word_list() == old(self).word_list(),
            final(self).target() == old(self).target(),
            match old(self).word_list().first_phrase(letter, old(self).room()) {
                Some(rest) => found && final(self).phrase() == old(self).phrase() + rest,
                None => !found && final(self).phrase() == old(self).phrase(),
            },
        decreases 25 - letter.ord(), old(self).room().count(letter),
    {
        let room = self.room_left();
        if room.is_zero_at(letter) {
            return match letter.inc() {
                Some(next) => self.search(next),
                None => {
                    assert(self.phrase() + Seq::<Seq<Letter>>::empty() =~= self.phrase());
                    true
                },
            };
        }
        let ghost wl = self.word_list();
        let ghost chosen = self.phrase();
        let ghost open = self.room();
        let mut progress: usize = 0;
        loop
            invariant
                self.wf(),
                self.word_list() == wl,
                self.target() == old(self).target(),
                self.phrase() == chosen,
                wl == old(self).word_list(),
                chosen == old(self).phrase(),
                open == old(self).room(),
                open.count(letter) != 0,
                progress <= wl.candidates(letter).len(),
                wl.first_phrase(letter, open) == wl.scan(letter, open, progress as nat),
            decreases wl.candidates(letter).len() - progress,
        {
            match self.inc(letter, progress) {
                None => {
                    return false;
                },
                Some(word) => {
                    proof {
                        self.lemma_within_target();
                        wl.lemma_candidate(letter, progress as int);
                    }
                    if self.push_word(word).is_some() {
                        let ghost left = open.sub(word@.to_multiset());
                        proof {
                            lemma_phrase_letters_push(chosen, word@);
                            self.lemma_within_target();
                            assert(self.room() =~= left);
                        }
                        if self.search(letter) {
                            proof {
                                let rest = wl.first_phrase(letter, left).unwrap();
                                assert(chosen.push(word@) + rest =~= chosen + (seq![word@] + rest));
                            }
                            return true;
                        }
                        self.pop_word();
                        assert(chosen.push(word@).drop_last() =~= chosen);
                    }
                    progress += 1;
                },
            }
        }
    }
}

impl<'a> WordList<'a> {
    /// Starts a search of this dictionary for a phrase with the letters `lc`.
    pub fn find_anagrams(&'a self, lc: &'a LetterCounts) -> (search: AnagramSearch<'a>)
        ensures
            search.wf(),
            search.word_list() == *self,
            search.target() == lc@,
            search.phrase() == Seq::<Seq<Letter>>::empty(),
            search.room() == lc@,
    {
        let search = AnagramSearch::new(self, lc);
        proof {
            assert(search.room() =~= lc@);
        }
        search
    }
}

/// Finds words of the dictionary that together have exactly the letters of
/// `target`: the first such phrase that a depth-first search comes to, which
/// goes through the alphabet and tries the candidates of each letter in their
/// order. A word may come more than once. `None` says that there is no such
/// phrase.
pub fn find(wl: &WordList, target: LetterCounts) -> (found: Option<Vec<Vec<Letter>>>)
    ensures
        found matches Some(words) ==> Some(owned_words(words@)) == wl.first_phrase(
            Letter::A,
            target@,
        ),
        found is None ==> wl.first_phrase(Letter::A, target@) is None,
        found matches Some(words) ==> wl.is_phrase(owned_words(words@)) && phrase_letters(
            owned_words(words@),
        ) == target@,
        found is None ==> forall|phrase: Seq<Seq<Letter>>| #[trigger]
            wl.is_phrase(phrase) ==> phrase_letters(phrase) != target@,
{
    let mut search = wl.find_anagrams(&target);
    let found = search.find_anagrams();
    proof {
        use_type_invariant(wl);
        wl.lemma_first_phrase_exact(Letter::A, target@);
        assert(Seq::<Seq<Letter>>::empty() + wl.first_phrase(Letter::A, target@).unwrap()
            =~= wl.first_phrase(Letter::A, target@).unwrap());
    }
    match found {
        None => {
            proof {
                assert forall|phrase: Seq<Seq<Letter>>| #[trigger]
                    wl.is_phrase(phrase) implies phrase_letters(phrase) != target@ by {
                    wl.lemma_first_phrase_complete(Letter::A, target@, phrase);
                }
            }
            None
        },
        Some(slices) => {
            let mut words: Vec<Vec<Letter>> = Vec::new();
            let mut i: usize = 0;
            while i < slices.len()
                invariant
                    i <= slices@.len(),
                    words@.len() == i,
                    forall|k: int| 0 <= k < i ==> (#[trigger] words@[k])@ == slices@[k]@,
                decreases slices@.len() - i,
            {
                words.push(copy_word(slices[i]));
                i += 1;
            }
            assert(owned_words(words@) =~= slice_words(slices@));
            Some(words)
        },
    }
}

/// An owned copy of a word.
fn copy_word(word: &[Letter]) -> (copy: Vec<Letter>)
    ensures
        copy@ == word@,
{
    let mut copy: Vec<Letter> = Vec::new();
    let mut i: usize = 0;
    while i < word.len()
        invariant
            i <= word@.len(),
            copy@ == word@.take(i as int),
        decreases word@.len() - i,
    {
        copy.push(word[i]);
        assert(word@.take(i + 1) =~= word@.take(i as int).push(word@[i as int]));
        i += 1;
    }
    assert(word@.take(word@.len() as int) =~= word@);
    copy
}

} // verus!
