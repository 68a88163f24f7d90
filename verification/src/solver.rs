pub mod anagram_search;
pub mod counted_word;
pub mod letter;
pub mod letter_counts;
pub mod phrase;
pub mod word_list;

pub use anagram_search::{find, AnagramSearch};
pub use counted_word::CountedWord;
pub use letter::Letter;
pub use letter_counts::LetterCounts;
pub use word_list::WordList;
