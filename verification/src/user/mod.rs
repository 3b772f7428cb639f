//! The user's own phrases and word preferences.

pub mod dict;
pub mod freq;
pub mod history_file;
pub mod history_freq;
pub mod migrate;
