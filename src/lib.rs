//! Reduction of a tagged character corpus to a numeric symbol stream and to a
//! count of its distinct n-grams.
//!
//! `alphabet` holds the character-to-code table, `vectorizer` turns corpora
//! into `(code, tag)` pairs, and `ngram` counts the distinct windows of the
//! resulting code sequence.
pub mod alphabet;
pub mod ngram;
pub mod vectorizer;
