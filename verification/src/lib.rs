//! Intelligent phonetic (Zhuyin/Bopomofo) input method library.
//!
//! The verified core of the library: the composition buffer and phrase
//! selection, syllable and word identifiers, the binary record encoding used
//! by the data files, the dictionaries and the bigram language model that
//! are built on top of it, and the user's own phrases.

pub mod model;
pub mod zhuyin;
pub mod conversion;
pub mod dictionary;
pub mod editor;
pub mod bare;
pub mod lm;
pub mod sys;
pub mod user;
pub mod path;
