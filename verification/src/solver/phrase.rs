use super::letter::Letter;
use super::word_list::WordList;
use vstd::multiset::Multiset;
use vstd::prelude::*;

verus! {

/// The letters of a phrase: those of all its words together, each as often as
/// the words hold it.
pub open spec fn phrase_letters(phrase: Seq<Seq<Letter>>) -> Multiset<Letter>
    decreases phrase.len(),
{
    if phrase.len() == 0 {
        Multiset::empty()
    } else {
        phrase_letters(phrase.drop_last()).add(phrase.last().to_multiset())
    }
}

/// A phrase of one word holds the letters of that word.
pub proof fn lemma_phrase_letters_single(word: Seq<Letter>)
    ensures
        phrase_letters(seq![word]) == word.to_multiset(),
{
    reveal_with_fuel(phrase_letters, 2);
    assert(seq![word].drop_last() =~= Seq::<Seq<Letter>>::empty());
    assert(seq![word].last() == word);
    assert(phrase_letters(seq![word]) =~= word.to_multiset());
}

/// One more word at the end adds the letters of that word.
pub proof fn lemma_phrase_letters_push(phrase: Seq<Seq<Letter>>, word: Seq<Letter>)
    ensures
        phrase_letters(phrase.push(word)) == phrase_letters(phrase).add(word.to_multiset()),
{
    assert(phrase.push(word).drop_last() =~= phrase);
}

/// Two phrases in a row hold the letters of both.
pub proof fn lemma_phrase_letters_concat(a: Seq<Seq<Letter>>, b: Seq<Seq<Letter>>)
    ensures
        phrase_letters(a + b) == phrase_letters(a).add(phrase_letters(b)),
    decreases b.len(),
{
    if b.len() == 0 {
        assert(a + b =~= a);
        assert(phrase_letters(a) =~= phrase_letters(a).add(phrase_letters(b)));
    } else {
        assert((a + b).drop_last() =~= a + b.drop_last());
        assert((a + b).last() == b.last());
        lemma_phrase_letters_concat(a, b.drop_last());
        assert(phrase_letters(a + b) =~= phrase_letters(a).add(phrase_letters(b)));
    }
}

/// Any word of a phrase lies within the letters of the phrase, and the phrase
/// without that word holds what is left.
pub proof fn lemma_phrase_letters_remove(phrase: Seq<Seq<Letter>>, k: int)
    requires
        0 <= k < phrase.len(),
    ensures
        phrase[k].to_multiset().subset_of(phrase_letters(phrase)),
        phrase_letters(phrase.remove(k)) == phrase_letters(phrase).sub(phrase[k].to_multiset()),
{
    let head = phrase.take(k);
    let tail = phrase.skip(k + 1);
    let one = seq![phrase[k]];
    assert(phrase =~= (head + one) + tail);
    assert(phrase.remove(k) =~= head + tail);
    lemma_phrase_letters_single(phrase[k]);
    lemma_phrase_letters_concat(head, one);
    lemma_phrase_letters_concat(head + one, tail);
    lemma_phrase_letters_concat(head, tail);
    assert(phrase_letters(phrase.remove(k)) =~= phrase_letters(phrase).sub(
        phrase[k].to_multiset(),
    ));
}

/// A letter that a phrase holds is held by one of its words: the position of
/// such a word.
pub proof fn lemma_phrase_letters_holder(phrase: Seq<Seq<Letter>>, letter: Letter) -> (k: int)
    requires
        phrase_letters(phrase).count(letter) > 0,
    ensures
        0 <= k < phrase.len(),
        phrase[k].to_multiset().count(letter) > 0,
    decreases phrase.len(),
{
    if phrase.len() == 0 {
        0
    } else if phrase.last().to_multiset().count(letter) > 0 {
        phrase.len() - 1
    } else {
        lemma_phrase_letters_holder(phrase.drop_last(), letter)
    }
}

impl<'a> WordList<'a> {
    /// Whether `word` is a word of the dictionary.
    pub open spec fn has_word(self, word: Seq<Letter>) -> bool {
        exists|i: int| 0 <= i < self.words().len() && (#[trigger] self.words()[i])@ == word
    }

    /// Whether `phrase` is made of words of the dictionary. A word may come
    /// more than once.
    pub open spec fn is_phrase(self, phrase: Seq<Seq<Letter>>) -> bool {
        forall|i: int| 0 <= i < phrase.len() ==> self.has_word(#[trigger] phrase[i])
    }

    /// The phrase that a search finds for `room`, the letters still to be
    /// covered, when it stands at `letter`; `None` where it finds none.
    ///
    /// A letter of which nothing is left is done: the search goes on to the
    /// next letter, and with no letter left it ends with the empty phrase.
    /// Otherwise the candidates of the letter are tried in their order.
    pub open spec fn first_phrase(self, letter: Letter, room: Multiset<Letter>) -> Option<
        Seq<Seq<Letter>>,
    >
        decreases 25 - letter.ord(), room.count(letter), self.candidates(letter).len() + 1,
    {
        if room.count(letter) != 0 {
            self.scan(letter, room, 0)
        } else if letter.ord() < 25 {
            self.first_phrase(Letter::at(letter.ord() + 1), room)
        } else {
            Some(Seq::empty())
        }
    }

    /// What the scan of `letter`'s candidates finds from position `progress`
    /// on. The scan ends without a phrase at the end of the list, and at the
    /// first word that holds more of `letter` than `room` does: the list
    /// ascends, so no later word can fit. A word that does not fit into `room`
    /// with all its letters is passed over. A word that fits is taken out of
    /// `room`, and the search is made again at the same letter for what is
    /// left; the first word for which that search finds a phrase stands at the
    /// head of the result. (A word without `letter` would leave the search
    /// where it is. An index holds none; the scan passes it over.)
    pub open spec fn scan(self, letter: Letter, room: Multiset<Letter>, progress: nat) -> Option<
        Seq<Seq<Letter>>,
    >
        decreases 25 - letter.ord(), room.count(letter), self.candidates(letter).len() - progress,
    {
        let list = self.candidates(letter);
        if progress >= list.len() {
            None
        } else {
            let word = list[progress as int]@;
            let held = word.to_multiset();
            if held.count(letter) > room.count(letter) {
                None
            } else if held.count(letter) == 0 || !held.subset_of(room) {
                self.scan(letter, room, progress + 1)
            } else {
                match self.first_phrase(letter, room.sub(held)) {
                    Some(rest) => Some(seq![word] + rest),
                    None => self.scan(letter, room, progress + 1),
                }
            }
        }
    }

    /// Every candidate is a word of the dictionary that holds its letter.
    pub proof fn lemma_candidate(self, letter: Letter, at: int)
        requires
            self.wf(),
            0 <= at < self.candidates(letter).len(),
        ensures
            self.has_word(self.candidates(letter)[at]@),
            self.candidates(letter)[at].count(letter) > 0,
    {
        self.lemma_index_invariant(letter);
        let word = self.candidates(letter)[at];
        assert(self.candidates(letter).contains(word));
        assert(self.words().contains(word));
        let i = choose|i: int| 0 <= i < self.words().len() && self.words()[i] == word;
        assert(self.words()[i]@ == word@);
    }

    /// Exactness: a phrase that the search finds is made of words of the
    /// dictionary, and its letters are exactly the letters that were to be
    /// covered, none more and none fewer. The search stands at `letter` only
    /// when nothing is left of the letters before it.
    pub proof fn lemma_first_phrase_exact(self, letter: Letter, room: Multiset<Letter>)
        requires
            self.wf(),
            forall|before: Letter| before.ord() < letter.ord() ==> room.count(before) == 0,
        ensures
            self.first_phrase(letter, room) matches Some(phrase) ==> self.is_phrase(phrase)
                && phrase_letters(phrase) == room,
        decreases 25 - letter.ord(), room.count(letter), self.candidates(letter).len() + 1,
    {
        if room.count(letter) != 0 {
            self.lemma_scan_exact(letter, room, 0);
        } else if letter.ord() < 25 {
            let next = Letter::at(letter.ord() + 1);
            Letter::lemma_at_ord(letter.ord() + 1);
            self.lemma_first_phrase_exact(next, room);
        } else {
            assert forall|any: Letter| room.count(any) == 0 by {
                any.lemma_ord_at();
            }
            assert(room =~= Multiset::<Letter>::empty());
        }
    }

    /// Exactness of a scan: see `lemma_first_phrase_exact`.
    pub proof fn lemma_scan_exact(self, letter: Letter, room: Multiset<Letter>, progress: nat)
        requires
            self.wf(),
            forall|before: Letter| before.ord() < letter.ord() ==> room.count(before) == 0,
        ensures
            self.scan(letter, room, progress) matches Some(phrase) ==> self.is_phrase(phrase)
                && phrase_letters(phrase) == room,
        decreases 25 - letter.ord(), room.count(letter), self.candidates(letter).len() - progress,
    {
        let list = self.candidates(letter);
        if progress < list.len() {
            let word = list[progress as int]@;
            let held = word.to_multiset();
            if held.count(letter) > room.count(letter) {
            } else if held.count(letter) == 0 || !held.subset_of(room) {
                self.lemma_scan_exact(letter, room, progress + 1);
            } else {
                let left = room.sub(held);
                self.lemma_first_phrase_exact(letter, left);
                match self.first_phrase(letter, left) {
                    Some(rest) => {
                        let phrase = seq![word] + rest;
                        self.lemma_candidate(letter, progress as int);
                        assert forall|i: int| 0 <= i < phrase.len() implies self.has_word(
                            #[trigger] phrase[i],
                        ) by {
                            if i > 0 {
                                assert(phrase[i] == rest[i - 1]);
                            }
                        }
                        lemma_phrase_letters_single(word);
                        lemma_phrase_letters_concat(seq![word], rest);
                        assert(held.add(left) =~= room);
                    },
                    None => {
                        self.lemma_scan_exact(letter, room, progress + 1);
                    },
                }
            }
        }
    }

    /// A scan that finds nothing has tried every candidate that fits: for the
    /// candidate at `at`, the search for what it leaves of `room` found
    /// nothing.
    pub proof fn lemma_scan_reaches(
        self,
        letter: Letter,
        room: Multiset<Letter>,
        progress: nat,
        at: int,
    )
        requires
            self.wf(),
            progress <= at < self.candidates(letter).len(),
            self.candidates(letter)[at]@.to_multiset().subset_of(room),
            self.scan(letter, room, progress) is None,
        ensures
            self.first_phrase(
                letter,
                room.sub(self.candidates(letter)[at]@.to_multiset()),
            ) is None,
        decreases at - progress,
    {
        let list = self.candidates(letter);
        self.lemma_index_invariant(letter);
        self.lemma_candidate(letter, at);
        self.lemma_candidate(letter, progress as int);
        assert(list[progress as int].count(letter) <= list[at].count(letter));
        assert(list[at]@.to_multiset().count(letter) <= room.count(letter));
        if progress < at {
            self.lemma_scan_reaches(letter, room, progress + 1, at);
        }
    }

    /// Soundness of failure: where the search finds nothing, there is nothing
    /// to find. No phrase of dictionary words, with words repeated or not, has
    /// exactly the letters that were to be covered.
    pub proof fn lemma_first_phrase_complete(
        self,
        letter: Letter,
        room: Multiset<Letter>,
        phrase: Seq<Seq<Letter>>,
    )
        requires
            self.wf(),
            self.first_phrase(letter, room) is None,
            self.is_phrase(phrase),
        ensures
            phrase_letters(phrase) != room,
        decreases 25 - letter.ord(), room.count(letter),
    {
        if room.count(letter) != 0 {
            if phrase_letters(phrase) == room {
                let k = lemma_phrase_letters_holder(phrase, letter);
                let word = phrase[k];
                lemma_phrase_letters_remove(phrase, k);
                assert(self.has_word(word));
                let i = choose|i: int| 0 <= i < self.words().len() && (#[trigger] self.words()[i])@
                    == word;
                let entry = self.words()[i];
                self.lemma_index_invariant(letter);
                assert(self.words().contains(entry));
                assert(self.candidates(letter).contains(entry));
                let at = choose|at: int|
                    0 <= at < self.candidates(letter).len() && self.candidates(letter)[at] == entry;
                self.lemma_scan_reaches(letter, room, 0, at);
                let rest = phrase.remove(k);
                assert forall|j: int| 0 <= j < rest.len() implies self.has_word(
                    #[trigger] rest[j],
                ) by {
                    if j < k {
                        assert(rest[j] == phrase[j]);
                    } else {
                        assert(rest[j] == phrase[j + 1]);
                    }
                }
                self.lemma_first_phrase_complete(letter, room.sub(word.to_multiset()), rest);
            }
        } else if letter.ord() < 25 {
            let next = Letter::at(letter.ord() + 1);
            Letter::lemma_at_ord(letter.ord() + 1);
            self.lemma_first_phrase_complete(next, room, phrase);
        }
    }
}

} // verus!
