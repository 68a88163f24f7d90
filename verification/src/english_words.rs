use crate::solver::anagram_search::owned_words;
use crate::solver::letter::{letter_of_byte, Letter};
use libflate::gzip::Decoder;
use std::io::Read;
use vstd::prelude::*;

verus! {

/// The byte that ends a line of a word list.
pub const NEWLINE: u8 = 0x0a;

/// Why a word list could not be loaded.
#[derive(Clone, Copy, Debug, PartialEq, Eq, Structural)]
pub enum WordListError {
    /// The archive is no sound gzip stream.
    BadArchive,
    /// The text holds a byte that is neither a letter nor the end of a line.
    InvalidSymbol,
}

/// The bytes that a gzip stream unpacks to; `None` where the bytes given are
/// no sound gzip stream.
pub uninterp spec fn gzip_payload(data: Seq<u8>) -> Option<Seq<u8>>;

/// The lines of a text: the stretches of bytes between its newlines. A text
/// with `n` newlines has `n + 1` lines, of which any may be empty.
pub open spec fn lines(text: Seq<u8>) -> Seq<Seq<u8>>
    decreases text.len(),
{
    if text.len() == 0 {
        seq![Seq::empty()]
    } else if text.last() == NEWLINE {
        lines(text.drop_last()).push(Seq::empty())
    } else {
        let before = lines(text.drop_last());
        before.drop_last().push(before.last().push(text.last()))
    }
}

/// The letters that the bytes of a line stand for.
pub open spec fn letters_of_line(line: Seq<u8>) -> Seq<Letter> {
    line.map_values(|b: u8| letter_of_byte(b).unwrap())
}

/// The words of a word list in plain text, one word to a line. A byte that is
/// neither a letter nor a newline refuses the whole text.
pub open spec fn words_of_text(text: Seq<u8>) -> Option<Seq<Seq<Letter>>> {
    if forall|i: int|
        0 <= i < text.len() ==> #[trigger] text[i] == NEWLINE || letter_of_byte(text[i]) is Some {
        Some(lines(text).map_values(|line: Seq<u8>| letters_of_line(line)))
    } else {
        None
    }
}

/// Unpacks a gzip stream that is held in memory: makes a `Decoder` of
/// libflate over the bytes and reads it to its end. The contract names what
/// comes out, which depends on the bytes alone, and claims nothing else of
/// it; a stream that the decoder refuses, at its header or further on, gives
/// `None`.
#[verifier::external_body]
fn gunzip(data: &[u8]) -> (out: Option<Vec<u8>>)
    ensures
        out matches Some(bytes) ==> gzip_payload(data@) == Some(bytes@),
        out is None ==> gzip_payload(data@) is None,
{
    let mut decoder = Decoder::new(data).ok()?;
    let mut bytes = Vec::new();
    decoder.read_to_end(&mut bytes).ok()?;
    Some(bytes)
}

/// Reads a word list in plain text, one word to a line.
pub fn parse_words(text: &[u8]) -> (words: Option<Vec<Vec<Letter>>>)
    ensures
        words matches Some(list) ==> words_of_text(text@) == Some(owned_words(list@)),
        words is None ==> words_of_text(text@) is None,
{
    let mut list: Vec<Vec<Letter>> = Vec::new();
    let mut word: Vec<Letter> = Vec::new();
    let mut i: usize = 0;
    proof {
        assert(text@.take(0) =~= Seq::<u8>::empty());
        assert(letters_of_line(Seq::<u8>::empty()) =~= word@);
    }
    while i < text.len()
        invariant
            i <= text@.len(),
            forall|j: int|
                0 <= j < i ==> #[trigger] text@[j] == NEWLINE || letter_of_byte(text@[j]) is Some,
            lines(text@.take(i as int)).len() == list@.len() + 1,
            forall|k: int|
                0 <= k < list@.len() ==> (#[trigger] list@[k])@ == letters_of_line(
                    lines(text@.take(i as int))[k],
                ),
            word@ == letters_of_line(lines(text@.take(i as int)).last()),
        decreases text@.len() - i,
    {
        let byte: u8 = text[i];
        let ghost before = lines(text@.take(i as int));
        proof {
            assert(text@.take(i + 1).drop_last() =~= text@.take(i as int));
            assert(text@.take(i + 1).last() == byte);
        }
        if byte == NEWLINE {
            proof {
                assert(letters_of_line(Seq::<u8>::empty()) =~= Seq::<Letter>::empty());
            }
            list.push(word);
            word = Vec::new();
        } else {
            match Letter::from_byte(&byte) {
                Some(letter) => {
                    proof {
                        assert(letters_of_line(before.last().push(byte)) =~= word@.push(letter));
                    }
                    word.push(letter);
                },
                None => {
                    return None;
                },
            }
        }
        i += 1;
    }
    list.push(word);
    proof {
        assert(text@.take(text@.len() as int) =~= text@);
        assert(owned_words(list@) =~= lines(text@).map_values(
            |line: Seq<u8>| letters_of_line(line),
        ));
    }
    Some(list)
}

/// Loads a word list from a gzip archive of its text.
pub fn get_words(list: &[u8]) -> (words: Result<Vec<Vec<Letter>>, WordListError>)
    ensures
        match gzip_payload(list@) {
            None => words == Err::<Vec<Vec<Letter>>, WordListError>(WordListError::BadArchive),
            Some(text) => match words_of_text(text) {
                None => words == Err::<Vec<Vec<Letter>>, WordListError>(
                    WordListError::InvalidSymbol,
                ),
                Some(found) => words matches Ok(loaded) && owned_words(loaded@) == found,
            },
        },
{
    match gunzip(list) {
        None => Err(WordListError::BadArchive),
        Some(text) => match parse_words(text.as_slice()) {
            None => Err(WordListError::InvalidSymbol),
            Some(loaded) => Ok(loaded),
        },
    }
}

} // verus!
