use anagram_solver::english_words::get_words;
use anagram_solver::solver::{find, CountedWord, Letter, LetterCounts, WordList};
use std::io::Write;

fn letters(text: &str) -> Vec<Letter> {
    Letter::from_bytes(text.as_bytes()).unwrap()
}

fn tally(text: &str) -> LetterCounts {
    LetterCounts::count_letters(&letters(text))
}

fn dictionary(words: &[&str]) -> Vec<CountedWord> {
    CountedWord::from_words(words.iter().map(|word| letters(word)).collect())
}

fn spell(word: &[Letter]) -> String {
    word.iter().map(|letter| letter.to_byte() as char).collect()
}

fn spell_all(phrase: &[Vec<Letter>]) -> Vec<String> {
    phrase.iter().map(|word| spell(word)).collect()
}

fn search(words: &[&str], target: &str) -> Option<Vec<String>> {
    let counted = dictionary(words);
    let word_list = WordList::new(&counted);
    find(&word_list, tally(target)).map(|phrase| spell_all(&phrase))
}

fn gzip(text: &[u8]) -> Vec<u8> {
    let mut encoder = libflate::gzip::Encoder::new(Vec::new()).unwrap();
    encoder.write_all(text).unwrap();
    encoder.finish().into_result().unwrap()
}

/// Whether some combination of the words, with repetition, has exactly the
/// letters of `room`: tried out word by word.
fn coverable(words: &[CountedWord], room: &LetterCounts) -> bool {
    if room.is_zero() {
        return true;
    }
    words.iter().any(|word| {
        !word.word().is_empty()
            && match room.checked_sub(word.counts()) {
                Some(left) => coverable(words, &left),
                None => false,
            }
    })
}

const ALPHABET: [Letter; 26] = [
    Letter::A,
    Letter::B,
    Letter::C,
    Letter::D,
    Letter::E,
    Letter::F,
    Letter::G,
    Letter::H,
    Letter::I,
    Letter::J,
    Letter::K,
    Letter::L,
    Letter::M,
    Letter::N,
    Letter::O,
    Letter::P,
    Letter::Q,
    Letter::R,
    Letter::S,
    Letter::T,
    Letter::U,
    Letter::V,
    Letter::W,
    Letter::X,
    Letter::Y,
    Letter::Z,
];

#[test]
fn find_word() {
    let archive = gzip(b"a\nace\ncar\ncare\nrace\nracecar\nzebra");
    let words = get_words(&archive).unwrap();
    let counted_words = CountedWord::from_words(words);
    let word_list = WordList::new(&counted_words);
    let letters = Letter::from_bytes(b"racecarracecar").unwrap();
    let letter_counts = LetterCounts::count_letters(&letters);
    let phrase = word_list.find_anagrams(&letter_counts).find_anagrams().unwrap();
    let mut covered = LetterCounts::default();
    for word in &phrase {
        covered = covered.add(&LetterCounts::count_letters(word));
    }
    assert_eq!(covered, letter_counts);
}

#[test]
fn cat_and_dog_cover_catdog() {
    let mut found = search(&["cat", "dog"], "catdog").unwrap();
    assert_eq!(found, vec!["cat", "dog"]);
    found.sort();
    assert_eq!(found, vec!["cat", "dog"]);
    let mut other = search(&["dog", "cat"], "catdog").unwrap();
    other.sort();
    assert_eq!(other, vec!["cat", "dog"]);
}

#[test]
fn a_word_with_too_many_letters_does_not_fit() {
    assert_eq!(search(&["aa"], "a"), None);
}

#[test]
fn a_word_may_be_repeated() {
    assert_eq!(search(&["a"], "aaa"), Some(vec!["a".to_string(), "a".to_string(), "a".to_string()]));
}

#[test]
fn the_empty_target_has_the_empty_phrase() {
    assert_eq!(search(&["cat", "dog"], ""), Some(vec![]));
    assert_eq!(search(&[], ""), Some(vec![]));
}

#[test]
fn an_empty_dictionary_covers_nothing() {
    assert_eq!(search(&[], "a"), None);
}

#[test]
fn a_digit_is_no_letter() {
    assert_eq!(Letter::from_byte(&b'5'), None);
    assert_eq!(Letter::from_bytes(b"a1b"), None);
    assert_eq!(Letter::from_bytes(b"ab"), Some(vec![Letter::A, Letter::B]));
    assert_eq!(Letter::from_bytes(b""), Some(vec![]));
}

#[test]
fn from_byte_takes_the_52_letters_and_nothing_else() {
    let mut taken = 0;
    for byte in 0u8..=255 {
        let letter = Letter::from_byte(&byte);
        if byte.is_ascii_lowercase() {
            assert_eq!(letter, Some(ALPHABET[(byte - b'a') as usize]));
        } else if byte.is_ascii_uppercase() {
            assert_eq!(letter, Some(ALPHABET[(byte - b'A') as usize]));
        } else {
            assert_eq!(letter, None);
        }
        if letter.is_some() {
            taken += 1;
        }
    }
    assert_eq!(taken, 52);
}

#[test]
fn from_byte_ignores_case() {
    assert_eq!(Letter::from_byte(&b'q'), Some(Letter::Q));
    assert_eq!(Letter::from_byte(&b'Q'), Some(Letter::Q));
    assert_eq!(Letter::from_byte(&b'@'), None);
    assert_eq!(Letter::from_byte(&b'['), None);
    assert_eq!(Letter::from_byte(&b'`'), None);
    assert_eq!(Letter::from_byte(&b'{'), None);
}

#[test]
fn to_byte_is_lower_case_and_reads_back() {
    for (position, letter) in ALPHABET.iter().enumerate() {
        assert_eq!(letter.to_byte(), b'a' + position as u8);
        assert_eq!(Letter::from_byte(&letter.to_byte()), Some(*letter));
        assert_eq!(letter.ordinal(), position);
    }
}

#[test]
fn every_letter_but_the_last_has_a_successor() {
    for position in 0..25 {
        assert_eq!(ALPHABET[position].inc(), Some(ALPHABET[position + 1]));
    }
    assert_eq!(Letter::Z.inc(), None);
}

#[test]
fn every_letter_but_the_first_has_a_predecessor() {
    for position in 1..26 {
        assert_eq!(ALPHABET[position].dec(), Some(ALPHABET[position - 1]));
    }
    assert_eq!(Letter::A.dec(), None);
}

#[test]
fn count_letters_tallies_each_letter() {
    let counts = tally("racecar");
    assert_eq!(counts.value_at(Letter::R), 2);
    assert_eq!(counts.value_at(Letter::A), 2);
    assert_eq!(counts.value_at(Letter::C), 2);
    assert_eq!(counts.value_at(Letter::E), 1);
    assert_eq!(counts.value_at(Letter::Z), 0);
    assert!(counts.is_zero_at(Letter::B));
    assert!(!counts.is_zero_at(Letter::E));
    let total: u32 = ALPHABET.iter().map(|letter| counts.value_at(*letter)).sum();
    assert_eq!(total, 7);
}

#[test]
fn the_default_is_the_tally_of_nothing() {
    let zero = LetterCounts::default();
    assert!(zero.is_zero());
    assert_eq!(zero, tally(""));
    for letter in ALPHABET {
        assert_eq!(zero.value_at(letter), 0);
    }
    assert!(!tally("z").is_zero());
    assert!(tally("z") != zero);
}

#[test]
fn checked_sub_is_all_or_nothing() {
    let racecar = tally("racecar");
    assert_eq!(racecar.checked_sub(&tally("race")), Some(tally("car")));
    assert_eq!(racecar.checked_sub(&racecar), Some(LetterCounts::default()));
    assert_eq!(racecar.checked_sub(&LetterCounts::default()), Some(racecar));
    assert_eq!(racecar.checked_sub(&tally("racer")), Some(tally("ca")));
    assert_eq!(racecar.checked_sub(&tally("racecars")), None);
    assert_eq!(racecar.checked_sub(&tally("ee")), None);
    assert_eq!(tally("a").checked_sub(&tally("aa")), None);
}

#[test]
fn add_puts_two_tallies_together() {
    assert_eq!(tally("race").add(&tally("car")), tally("racecar"));
    assert_eq!(tally("").add(&tally("dog")), tally("dog"));
    assert_eq!(tally("aab").add(&tally("abb")).value_at(Letter::A), 3);
}

#[test]
fn exceeds_tells_when_the_other_holds_more() {
    assert!(tally("car").exceeds(&tally("race")));
    assert!(!tally("racecar").exceeds(&tally("race")));
    assert!(!tally("race").exceeds(&tally("race")));
    assert!(tally("").exceeds(&tally("a")));
    assert!(!tally("a").exceeds(&tally("")));
    assert!(tally("aab").exceeds(&tally("abb")));
    assert!(tally("abb").exceeds(&tally("aab")));
}

#[test]
fn a_counted_word_keeps_its_word_and_its_tally() {
    let word = CountedWord::from_word(letters("zebra"));
    assert_eq!(word.word(), &letters("zebra")[..]);
    assert_eq!(*word.counts(), tally("zebra"));
    let words = dictionary(&["ab", "", "c"]);
    assert_eq!(words.len(), 3);
    assert_eq!(spell(words[0].word()), "ab");
    assert_eq!(spell(words[1].word()), "");
    assert_eq!(spell(words[2].word()), "c");
    assert!(words[1].counts().is_zero());
}

#[test]
fn the_candidates_of_a_letter_are_the_words_that_hold_it_in_ascending_order() {
    let counted = dictionary(&["banana", "aardvark", "bob", "kiwi", "a", "aa", "", "bab"]);
    let word_list = WordList::new(&counted);
    assert_eq!(word_list.words_given().len(), 8);
    for letter in ALPHABET {
        let list = word_list.candidates_for(letter);
        let mut expected: Vec<String> = counted
            .iter()
            .filter(|word| word.counts().value_at(letter) != 0)
            .map(|word| spell(word.word()))
            .collect();
        let mut held: Vec<String> = list.iter().map(|word| spell(word.word())).collect();
        expected.sort();
        held.sort();
        assert_eq!(held, expected);
        for pair in list.windows(2) {
            assert!(pair[0].counts().value_at(letter) <= pair[1].counts().value_at(letter));
        }
    }
    let of_a: Vec<String> =
        word_list.candidates_for(Letter::A).iter().map(|word| spell(word.word())).collect();
    assert_eq!(of_a, vec!["a", "bab", "aa", "banana", "aardvark"]);
    let of_b: Vec<String> =
        word_list.candidates_for(Letter::B).iter().map(|word| spell(word.word())).collect();
    assert_eq!(of_b, vec!["banana", "bob", "bab"]);
    assert!(word_list.candidates_for(Letter::Z).is_empty());
}

#[test]
fn the_candidates_come_out_sorted_whatever_the_order_given() {
    let counted = dictionary(&["aaa", "aa", "a"]);
    let word_list = WordList::new(&counted);
    let of_a: Vec<String> =
        word_list.candidates_for(Letter::A).iter().map(|word| spell(word.word())).collect();
    assert_eq!(of_a, vec!["a", "aa", "aaa"]);
}

#[test]
fn building_twice_gives_the_same_candidates() {
    let counted = dictionary(&["tab", "bat", "at", "ta", "a", "battle", "tattle"]);
    let first = WordList::new(&counted);
    let second = WordList::new(&counted);
    for letter in ALPHABET {
        let mut one: Vec<String> =
            first.candidates_for(letter).iter().map(|word| spell(word.word())).collect();
        let mut other: Vec<String> =
            second.candidates_for(letter).iter().map(|word| spell(word.word())).collect();
        one.sort();
        other.sort();
        assert_eq!(one, other);
    }
}

#[test]
fn a_phrase_that_is_found_has_exactly_the_letters_of_the_target() {
    let words = ["a", "ace", "car", "care", "race", "racecar", "zebra", "bar", "crab", "ab"];
    let counted = dictionary(&words);
    let word_list = WordList::new(&counted);
    for target in ["racecar", "zebracrab", "abracadabra", "carcarcar", "barcabaret", "a", ""] {
        if let Some(phrase) = find(&word_list, tally(target)) {
            let mut covered = LetterCounts::default();
            for word in &phrase {
                assert!(words.contains(&spell(word).as_str()));
                covered = covered.add(&LetterCounts::count_letters(word));
            }
            assert_eq!(covered, tally(target));
        }
    }
    assert!(find(&word_list, tally("zebracrab")).is_some());
    assert!(find(&word_list, tally("carcarcar")).is_some());
}

#[test]
fn nothing_is_found_only_where_there_is_nothing() {
    let dictionaries: [&[&str]; 4] =
        [&["ab", "bc", "ca"], &["a", "bb", "abc"], &["aab", "b", "cc", "ac"], &["abc", "", "c"]];
    let mut found = 0;
    let mut refused = 0;
    for words in dictionaries {
        let counted = dictionary(words);
        let word_list = WordList::new(&counted);
        for a in 0..4 {
            for b in 0..4 {
                for c in 0..4 {
                    let target = "a".repeat(a) + &"b".repeat(b) + &"c".repeat(c);
                    let answer = find(&word_list, tally(&target));
                    assert_eq!(answer.is_some(), coverable(&counted, &tally(&target)));
                    if answer.is_some() {
                        found += 1;
                    } else {
                        refused += 1;
                    }
                }
            }
        }
    }
    assert!(found > 0);
    assert!(refused > 0);
}

#[test]
fn the_first_phrase_in_search_order_is_found() {
    assert_eq!(search(&["ab", "a", "b"], "ab"), Some(vec!["ab".to_string()]));
    assert_eq!(search(&["a", "b", "ab"], "ab"), Some(vec!["a".to_string(), "b".to_string()]));
    assert_eq!(search(&["aaa", "a"], "aa"), Some(vec!["a".to_string(), "a".to_string()]));
    assert_eq!(
        search(&["aa", "ab", "b"], "aabb"),
        Some(vec!["ab".to_string(), "ab".to_string()])
    );
}

#[test]
fn a_word_that_overdraws_a_letter_already_done_is_passed_over() {
    assert_eq!(search(&["ba", "b"], "b"), Some(vec!["b".to_string()]));
    assert_eq!(search(&["ba"], "b"), None);
    assert_eq!(search(&["ab", "bc"], "abbc"), Some(vec!["ab".to_string(), "bc".to_string()]));
    assert_eq!(search(&["ab", "bc"], "abc"), None);
}

#[test]
fn a_search_backtracks_from_a_dead_end() {
    assert_eq!(search(&["ab", "ac", "bd"], "acbd"), Some(vec!["ac".to_string(), "bd".to_string()]));
    assert_eq!(search(&["a", "ab", "bb"], "abb"), Some(vec!["a".to_string(), "bb".to_string()]));
    assert_eq!(search(&["ab", "a", "bbb"], "abbb"), Some(vec!["a".to_string(), "bbb".to_string()]));
}

#[test]
fn a_search_hands_out_the_words_it_chose() {
    let counted = dictionary(&["cat", "dog"]);
    let word_list = WordList::new(&counted);
    let target = tally("dogcatdog");
    let mut search = word_list.find_anagrams(&target);
    let phrase = search.find_anagrams().unwrap();
    let spelled: Vec<String> = phrase.iter().map(|word| spell(word)).collect();
    assert_eq!(spelled, vec!["cat", "dog", "dog"]);
    let nothing = tally("cow");
    assert!(word_list.find_anagrams(&nothing).find_anagrams().is_none());
}

#[test]
fn the_whole_alphabet_is_covered() {
    let found = search(
        &[
            "quick", "brown", "fox", "jumps", "mr", "jock", "tv", "quiz", "phd", "bags", "few",
            "lynx",
        ],
        "abcdefghijklmnopqrstuvwxyz",
    );
    let mut found = found.unwrap();
    found.sort();
    assert_eq!(found, vec!["bags", "few", "jock", "lynx", "mr", "phd", "quiz", "tv"]);
}
