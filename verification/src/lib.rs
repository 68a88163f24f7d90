pub mod english_words;
pub mod solver;
