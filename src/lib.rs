//! Symmetric-delete spelling correction: a delete index over a frequency
//! dictionary, optimal-string-alignment edit distance, single-word lookup,
//! compound lookup and word segmentation.
pub mod compound;
pub mod damerau_osa;
pub mod edit_distance;
pub mod grapheme_iterator;
pub mod helpers;
pub mod levenshtein;
pub mod parse;
pub mod segmentation;
pub mod suggest_item;
pub mod sym_spell;
pub mod text;
pub mod utils;
pub mod verbosity;
pub mod word_table;
