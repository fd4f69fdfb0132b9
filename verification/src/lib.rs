//! Fuzzy alignment of two ordered word sequences: a longest-common-substring
//! similarity ratio, its matching-block decomposition, and a chunked greedy
//! aligner that pairs each reference word with its best unused candidate at
//! or above a threshold. Scores are exact rationals, and the contracts pin
//! the tie-breaks: the first longest run in scan order, and the earliest of
//! equally good candidates.

pub mod align;
pub mod matcher;
pub mod rational;
