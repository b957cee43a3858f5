//! Alignment of known text to audio frames.

pub mod aligner;
pub mod ar_decoder;
pub mod dtw_decoder;
pub mod dtw_laws;
pub mod forced_align;
pub mod grouping_laws;
pub mod target_laws;
pub mod text;
pub mod text_laws;
pub mod timestamp_laws;
pub mod view_laws;
pub mod viterbi_laws;
pub mod vocab_laws;
pub mod wav2vec2;
