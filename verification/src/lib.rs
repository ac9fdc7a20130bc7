//! Finds every combination of words, drawn from a list of five-letter words,
//! in which no two words share a character.
//!
//! A word is reduced to its *signature*, its bytes in ascending order, so that
//! anagrams coincide and two words can be compared by one merge scan.

pub mod search;
mod seq_facts;
pub mod word;
pub mod word_set;

pub use search::{
    get_disjoint_indices, get_disjoint_indices_from, get_disjoint_indices_partial,
    get_disjoint_indices_sequential, merge_partitions,
};
pub use word::{all_characters_unique, sort_bytes, Word, WORD_LEN};
pub use word_set::{get_words, LineOutcome, WordSet};
