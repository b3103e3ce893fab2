//! Transfer of syllable-boundary markers from a hyphenated word onto an
//! unmarked phonetic transcription of the same word.
//!
//! The heart of the crate is the boundary-transfer engine: it enumerates the
//! admissible marker placements in the target string, ranks them by a local
//! character-overlap similarity against the marked source, narrows the best
//! ones by edit distance, and breaks residual ties deterministically.  Around
//! it stand a normalization table for phonetic characters, a dynamic-programming
//! alignment variant of the same transfer, a concurrent phoneme cache with a
//! persistable snapshot, and the pure parts of the batch orchestration.
#![verifier::loop_isolation(false)]

pub mod textseq;
pub mod norm;
pub mod levenshtein;
pub mod candidates;
pub mod scoring;
pub mod transform_hyphens;
pub mod align;
pub mod transform;
pub mod utils;
pub mod tiebreak;
pub mod cache;
pub mod batch;
