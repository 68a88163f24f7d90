use anagram_solver::english_words::{get_words as load_words, parse_words, WordListError};
use anagram_solver::solver::Letter;
use std::io::Write;

fn pack(text: &[u8]) -> Vec<u8> {
    let mut encoder = libflate::gzip::Encoder::new(Vec::new()).unwrap();
    encoder.write_all(text).unwrap();
    encoder.finish().into_result().unwrap()
}

fn spelled(words: &[Vec<Letter>]) -> Vec<String> {
    words.iter().map(|word| word.iter().map(|letter| letter.to_byte() as char).collect()).collect()
}

#[test]
fn get_words() {
    let words = load_words(&pack(b"aardvark\nabacus\nzebra")).unwrap();
    assert_eq!(spelled(&words), vec!["aardvark", "abacus", "zebra"]);
}

#[test]
fn get_words_reads_what_the_archive_holds_not_the_archive() {
    let text = b"one\ntwo\nthree\n";
    let archive = pack(text);
    assert!(archive != text.to_vec());
    let words = load_words(&archive).unwrap();
    assert_eq!(spelled(&words), vec!["one", "two", "three", ""]);
}

#[test]
fn get_words_refuses_what_is_no_archive() {
    assert_eq!(load_words(b"aardvark\nabacus\nzebra"), Err(WordListError::BadArchive));
    assert_eq!(load_words(b""), Err(WordListError::BadArchive));
    let mut cut = pack(b"aardvark\nabacus\nzebra");
    cut.truncate(cut.len() - 6);
    assert_eq!(load_words(&cut), Err(WordListError::BadArchive));
    let mut spoilt = pack(b"aardvark\nabacus\nzebra");
    let last = spoilt.len() - 5;
    spoilt[last] ^= 0xff;
    assert_eq!(load_words(&spoilt), Err(WordListError::BadArchive));
}

#[test]
fn get_words_refuses_a_text_with_other_symbols() {
    let hello_world = [
        31, 139, 8, 0, 123, 0, 0, 0, 0, 3, 1, 12, 0, 243, 255, 72, 101, 108, 108, 111, 32, 87,
        111, 114, 108, 100, 33, 163, 28, 41, 28, 12, 0, 0, 0,
    ];
    assert_eq!(load_words(&hello_world), Err(WordListError::InvalidSymbol));
    assert_eq!(load_words(&pack(b"one\r\ntwo")), Err(WordListError::InvalidSymbol));
    assert_eq!(load_words(&pack(b"it's")), Err(WordListError::InvalidSymbol));
}

#[test]
fn get_words_takes_either_case() {
    let words = load_words(&pack(b"Hello\nWORLD")).unwrap();
    assert_eq!(spelled(&words), vec!["hello", "world"]);
}

#[test]
fn parse_words_splits_at_every_newline() {
    assert_eq!(spelled(&parse_words(b"").unwrap()), vec![""]);
    assert_eq!(spelled(&parse_words(b"a").unwrap()), vec!["a"]);
    assert_eq!(spelled(&parse_words(b"a\n").unwrap()), vec!["a", ""]);
    assert_eq!(spelled(&parse_words(b"\na").unwrap()), vec!["", "a"]);
    assert_eq!(spelled(&parse_words(b"ab\n\ncd").unwrap()), vec!["ab", "", "cd"]);
    assert_eq!(spelled(&parse_words(b"\n\n").unwrap()), vec!["", "", ""]);
}

#[test]
fn parse_words_refuses_the_whole_text_for_one_bad_byte() {
    assert_eq!(parse_words(b"ab\nc d\nef"), None);
    assert_eq!(parse_words(b"ab\ncd\nef1"), None);
    assert_eq!(parse_words(b"0"), None);
    assert_eq!(parse_words(b"ab\tcd"), None);
}
