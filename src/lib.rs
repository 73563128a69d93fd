//! Approximate matching of noisy text against a fixed vocabulary, by the
//! overlap of character n-grams, together with the small pieces of screen and
//! price logic that surround it.

pub mod closestmatch;
pub mod market;
pub mod ngram;
pub mod ocr;
pub mod screenshot;
