//! A word-game lexicon engine: letter-multiset algebra, composable entry
//! filters, a multiset-keyed lexicon, longest-subword and anagram-breakdown
//! queries, and a backtracking enumerator that decomposes a target multiset
//! into sequences of dictionary words without ever repeating a bag.

pub mod anagrams;
pub mod filter;
pub mod game;
pub mod length_range;
pub mod letter_mask;
pub mod lexi;
pub mod preview;
pub mod queries;
pub mod search_api;
pub mod sorted_letters;
pub mod sorting;

pub use anagrams::{anagrams, AnagramFrame, Anagrams};
pub use filter::{Check, Filter, FilterBuilder};
pub use length_range::LengthRange;
pub use letter_mask::LetterMask;
pub use lexi::{Entry, Lexicon, Popularity};
pub use queries::{
    anagram_breakdowns, search_countdown, solve_anagram, AnagramHit, Quality, RankedWord,
};
pub use sorted_letters::SortedLetters;
