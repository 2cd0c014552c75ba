//! A solver for a seven-letter word puzzle: one alphabet of seven distinct
//! lowercase letters (the first being the mandatory center letter) admits a
//! word when the word is long enough, uses only alphabet letters, and
//! contains the center letter. The crate scores words, solves a whole
//! dictionary against one alphabet, enumerates every canonical alphabet, and
//! tracks running maxima over an exhaustive search.

pub mod scorer;
pub mod solver;
pub mod tracker;
pub mod search;
