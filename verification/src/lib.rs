//! Audio fingerprint search: the index format, the framing and re-binning of
//! spectrogram data, and the ranking of matches.
//!
//! Sample and magnitude values are carried as the bit patterns of IEEE-754
//! binary32 numbers (`u32`): the library moves, stores and orders them, and
//! leaves arithmetic on them to its callers.

pub mod audio;
pub mod bytes;
pub mod cli;
pub mod corpus;
pub mod file;
pub mod log_spectrogram;
pub mod score;
pub mod search;
pub mod spectrogram;
pub mod text;
