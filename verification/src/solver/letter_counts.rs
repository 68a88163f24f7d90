use super::letter::Letter;
use vstd::multiset::Multiset;
use vstd::prelude::*;
use vstd::seq_lib::lemma_multiset_commutative;

verus! {

/// How often each letter occurs in some text: a multiset of letters, held as
/// one counter per letter of the alphabet.
#[derive(Clone, Copy, Debug)]
pub struct LetterCounts([u32; 26]);

impl View for LetterCounts {
    type V = Multiset<Letter>;

    closed spec fn view(&self) -> Multiset<Letter> {
        Multiset::from_map(Map::total(|letter: Letter| self.0@[letter.ord()] as nat))
    }
}

/// The alphabet is a finite set, so a counter per letter describes a multiset.
proof fn lemma_alphabet_finite()
    ensures
        Set::<Letter>::full().finite(),
{
    let all = set![
        Letter::A, Letter::B, Letter::C, Letter::D, Letter::E, Letter::F, Letter::G,
        Letter::H, Letter::I, Letter::J, Letter::K, Letter::L, Letter::M, Letter::N,
        Letter::O, Letter::P, Letter::Q, Letter::R, Letter::S, Letter::T, Letter::U,
        Letter::V, Letter::W, Letter::X, Letter::Y, Letter::Z
    ];
    assert(Set::<Letter>::full() =~= all);
}

/// Whether the letters of `word` can be tallied: no letter occurs more often
/// than a counter can hold.
pub open spec fn countable(word: Seq<Letter>) -> bool {
    forall|letter: Letter| #[trigger] word.to_multiset().count(letter) <= u32::MAX
}

/// A word that is no longer than a counter can hold can be tallied.
pub proof fn lemma_short_word_countable(word: Seq<Letter>)
    requires
        word.len() <= u32::MAX,
    ensures
        countable(word),
{
    word.to_multiset_ensures();
    assert forall|letter: Letter| #[trigger] word.to_multiset().count(letter) <= u32::MAX by {
        vstd::multiset::axiom_count_le_len(word.to_multiset(), letter);
    }
}

impl LetterCounts {
    /// The counter of the letter at position `i`.
    spec fn entry(self, i: int) -> nat {
        self.0@[i] as nat
    }

    /// The multiset holds each letter as often as its counter says.
    proof fn lemma_count(self, letter: Letter)
        ensures
            self@.count(letter) == self.entry(letter.ord()),
            0 <= letter.ord() < 26,
    {
        lemma_alphabet_finite();
        let m = Map::total(|l: Letter| self.0@[l.ord()] as nat);
        assert(m.dom() =~= Set::<Letter>::full());
        assert(m.dom().contains(letter));
    }

    /// Every count fits a machine counter.
    pub proof fn lemma_bounded(self)
        ensures
            forall|letter: Letter| #[trigger] self@.count(letter) <= u32::MAX,
    {
        assert forall|letter: Letter| #[trigger] self@.count(letter) <= u32::MAX by {
            self.lemma_count(letter);
        }
    }

    /// Tallies the letters of a word. No letter may occur more often than a
    /// counter can hold, which is so of every word of at most `u32::MAX` letters
    /// (`lemma_short_word_countable`).
    pub fn count_letters(word: &[Letter]) -> (counts: LetterCounts)
        requires
            countable(word@),
        ensures
            counts@ == word@.to_multiset(),
    {
        let mut ret: [u32; 26] = [0u32; 26];
        let mut i: usize = 0;
        proof {
            assert(word@.take(0) =~= Seq::<Letter>::empty());
            assert(word@.take(0).to_multiset() =~= Multiset::<Letter>::empty()) by {
                word@.take(0).to_multiset_ensures();
            }
        }
        while i < word.len()
            invariant
                i <= word.len(),
                countable(word@),
                forall|k: int|
                    0 <= k < 26 ==> #[trigger] ret@[k] == word@.take(i as int).to_multiset().count(
                        Letter::at(k),
                    ),
            decreases word.len() - i,
        {
            let letter: Letter = word[i];
            let k: usize = letter.ordinal();
            proof {
                let before = word@.take(i as int);
                let after = word@.take(i + 1);
                let rest = word@.skip(i + 1);
                assert(after =~= before.push(letter));
                before.to_multiset_ensures();
                assert(after.to_multiset() =~= before.to_multiset().insert(letter));
                assert(word@ =~= after + rest);
                lemma_multiset_commutative(after, rest);
                assert(after.to_multiset().count(letter) <= word@.to_multiset().count(letter));
                assert forall|j: int| 0 <= j < 26 && j != k implies after.to_multiset().count(
                    Letter::at(j),
                ) == before.to_multiset().count(Letter::at(j)) by {
                    Letter::lemma_at_ord(j);
                }
                assert(Letter::at(k as int) == letter);
            }
            ret[k] = ret[k] + 1;
            i += 1;
        }
        let counts = LetterCounts(ret);
        proof {
            assert(word@.take(word@.len() as int) =~= word@);
            assert forall|letter: Letter| counts@.count(letter) == word@.to_multiset().count(
                letter,
            ) by {
                counts.lemma_count(letter);
                letter.lemma_ord_at();
            }
            assert(counts@ =~= word@.to_multiset());
        }
        counts
    }

    /// Takes `other` out of `self`, letter by letter. The result is all or
    /// nothing: one letter of which `other` holds more than `self` refuses
    /// the whole subtraction.
    pub fn checked_sub(&self, other: &LetterCounts) -> (r: Option<LetterCounts>)
        ensures
            r is Some <==> other@.subset_of(self@),
            r matches Some(rest) ==> rest@ == self@.sub(other@),
    {
        let mut ret: [u32; 26] = [0u32; 26];
        let mut k: usize = 0;
        while k < 26
            invariant
                k <= 26,
                forall|j: int| 0 <= j < k ==> #[trigger] other.entry(j) <= self.entry(j),
                forall|j: int| 0 <= j < k ==> #[trigger] ret@[j] == self.entry(j) - other.entry(j),
            decreases 26 - k,
        {
            match self.0[k].checked_sub(other.0[k]) {
                Some(left) => {
                    ret[k] = left;
                },
                None => {
                    proof {
                        let letter = Letter::at(k as int);
                        Letter::lemma_at_ord(k as int);
                        self.lemma_count(letter);
                        other.lemma_count(letter);
                        assert(other@.count(letter) > self@.count(letter));
                    }
                    return None;
                },
            }
            k += 1;
        }
        let rest = LetterCounts(ret);
        proof {
            assert forall|letter: Letter| other@.count(letter) <= self@.count(letter) by {
                self.lemma_count(letter);
                other.lemma_count(letter);
                assert(other.entry(letter.ord()) <= self.entry(letter.ord()));
            }
            assert forall|letter: Letter| rest@.count(letter) == self@.sub(other@).count(
                letter,
            ) by {
                self.lemma_count(letter);
                other.lemma_count(letter);
                rest.lemma_count(letter);
                assert(rest.0@[letter.ord()] == self.entry(letter.ord()) - other.entry(
                    letter.ord(),
                ));
            }
            assert(rest@ =~= self@.sub(other@));
        }
        Some(rest)
    }

    /// Puts `self` and `other` together, letter by letter.
    pub fn add(&self, other: &LetterCounts) -> (sum: LetterCounts)
        requires
            forall|letter: Letter| #[trigger] self@.count(letter) + other@.count(letter) <= u32::MAX,
        ensures
            sum@ == self@.add(other@),
    {
        let mut ret: [u32; 26] = [0u32; 26];
        let mut k: usize = 0;
        while k < 26
            invariant
                k <= 26,
                forall|letter: Letter| #[trigger]
                    self@.count(letter) + other@.count(letter) <= u32::MAX,
                forall|j: int|
                    0 <= j < k ==> #[trigger] ret@[j] == self.entry(j) + other.entry(j),
            decreases 26 - k,
        {
            proof {
                let letter = Letter::at(k as int);
                Letter::lemma_at_ord(k as int);
                self.lemma_count(letter);
                other.lemma_count(letter);
                assert(self@.count(letter) + other@.count(letter) <= u32::MAX);
            }
            ret[k] = self.0[k] + other.0[k];
            k += 1;
        }
        let sum = LetterCounts(ret);
        proof {
            assert forall|letter: Letter| sum@.count(letter) == self@.add(other@).count(
                letter,
            ) by {
                self.lemma_count(letter);
                other.lemma_count(letter);
                sum.lemma_count(letter);
                assert(sum.0@[letter.ord()] == self.entry(letter.ord()) + other.entry(
                    letter.ord(),
                ));
            }
            assert(sum@ =~= self@.add(other@));
        }
        sum
    }

    /// Whether `self` falls short of `other`: whether `other` holds more of
    /// some letter than `self` does.
    pub fn exceeds(&self, other: &LetterCounts) -> (short: bool)
        ensures
            short == !other@.subset_of(self@),
            short == exists|letter: Letter| self@.count(letter) < other@.count(letter),
    {
        let mut k: usize = 0;
        while k < 26
            invariant
                k <= 26,
                forall|j: int| 0 <= j < k ==> #[trigger] other.entry(j) <= self.entry(j),
            decreases 26 - k,
        {
            if self.0[k] < other.0[k] {
                proof {
                    let letter = Letter::at(k as int);
                    Letter::lemma_at_ord(k as int);
                    self.lemma_count(letter);
                    other.lemma_count(letter);
                    assert(self@.count(letter) < other@.count(letter));
                }
                return true;
            }
            k += 1;
        }
        proof {
            assert forall|letter: Letter| other@.count(letter) <= self@.count(letter) by {
                self.lemma_count(letter);
                other.lemma_count(letter);
                assert(other.entry(letter.ord()) <= self.entry(letter.ord()));
            }
        }
        false
    }

    /// How often `letter` occurs.
    pub fn value_at(&self, letter: Letter) -> (n: u32)
        ensures
            n == self@.count(letter),
    {
        proof {
            self.lemma_count(letter);
        }
        self.0[letter.ordinal()]
    }

    /// Whether `letter` does not occur.
    pub fn is_zero_at(&self, letter: Letter) -> (zero: bool)
        ensures
            zero == (self@.count(letter) == 0),
    {
        self.value_at(letter) == 0
    }

    /// Whether no letter occurs at all.
    pub fn is_zero(&self) -> (zero: bool)
        ensures
            zero == (self@ == Multiset::<Letter>::empty()),
    {
        let mut k: usize = 0;
        while k < 26
            invariant
                k <= 26,
                forall|j: int| 0 <= j < k ==> #[trigger] self.entry(j) == 0,
            decreases 26 - k,
        {
            if self.0[k] != 0 {
                proof {
                    let letter = Letter::at(k as int);
                    Letter::lemma_at_ord(k as int);
                    self.lemma_count(letter);
                    assert(self@.count(letter) != 0);
                }
                return false;
            }
            k += 1;
        }
        proof {
            assert forall|letter: Letter| self@.count(letter) == 0 by {
                self.lemma_count(letter);
                assert(self.entry(letter.ord()) == 0);
            }
            assert(self@ =~= Multiset::<Letter>::empty());
        }
        true
    }
}

impl PartialEq for LetterCounts {
    /// Two tallies are equal when they hold every letter equally often.
    fn eq(&self, other: &LetterCounts) -> (same: bool) {
        let mut k: usize = 0;
        while k < 26
            invariant
                k <= 26,
                forall|j: int| 0 <= j < k ==> #[trigger] self.entry(j) == other.entry(j),
            decreases 26 - k,
        {
            if self.0[k] != other.0[k] {
                proof {
                    let letter = Letter::at(k as int);
                    Letter::lemma_at_ord(k as int);
                    self.lemma_count(letter);
                    other.lemma_count(letter);
                    assert(self@.count(letter) != other@.count(letter));
                }
                return false;
            }
            k += 1;
        }
        proof {
            assert forall|letter: Letter| self@.count(letter) == other@.count(letter) by {
                self.lemma_count(letter);
                other.lemma_count(letter);
                assert(self.entry(letter.ord()) == other.entry(letter.ord()));
            }
            assert(self@ =~= other@);
        }
        true
    }
}

impl Eq for LetterCounts {

}

impl vstd::std_specs::cmp::PartialEqSpecImpl for LetterCounts {
    open spec fn obeys_eq_spec() -> bool {
        true
    }

    open spec fn eq_spec(&self, other: &LetterCounts) -> bool {
        self@ == other@
    }
}

impl Default for LetterCounts {
    /// The empty multiset: every counter at zero.
    fn default() -> (counts: LetterCounts)
        ensures
            counts@ == Multiset::<Letter>::empty(),
    {
        let counts = LetterCounts([0u32; 26]);
        proof {
            assert forall|letter: Letter| counts@.count(letter) == 0 by {
                counts.lemma_count(letter);
            }
            assert(counts@ =~= Multiset::<Letter>::empty());
        }
        counts
    }
}

} // verus!
